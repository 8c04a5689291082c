use tasky::store::{decode_tasks, encode_tasks};
use tasky::task::Task;

#[test]
fn test_add_and_load_tasks() {
    let tasks = vec![
        Task::new(1, "Primeira tarefa".to_string(), vec!["tag1".to_string()]),
        Task::new(2, "Segunda tarefa".to_string(), vec![]),
    ];

    let saved = encode_tasks(&tasks);
    let loaded_tasks = decode_tasks(&saved).expect("Carregar tarefas falhou");

    assert_eq!(tasks, loaded_tasks);
}
