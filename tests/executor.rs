use hannos::task::simple_executor::SimpleExecutor;

#[test]
fn tasks_run_round_robin() {
    let mut ex: SimpleExecutor<(u32, u32)> = SimpleExecutor::new();
    ex.spawn((1, 2));
    ex.spawn((2, 1));
    let mut order = Vec::new();
    while let Some((id, left)) = ex.next_task() {
        order.push(id);
        ex.settle((id, left - 1), left == 1);
    }
    assert_eq!(order, vec![1, 2, 1]);
    assert!(ex.next_task().is_none());
}
