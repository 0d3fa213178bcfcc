use chokurei::scheduler::{Scheduler, Unit};

fn drain(scheduler: &mut Scheduler<u32>, mut now: u64) -> Vec<(u32, u64)> {
    let mut out = Vec::new();
    while let Some(wait) = scheduler.leeway(now) {
        now += wait;
        let id = scheduler.pop_due(now).unwrap();
        out.push((id, now));
    }
    out
}

#[test]
fn it_schedules_initial() {
    let mut scheduler = Scheduler::new();
    scheduler.schedule(0, 0, 0);
    scheduler.schedule(0, 10, 2);
    scheduler.schedule(0, 15, 3);
    scheduler.schedule(0, 5, 1);
    let out = drain(&mut scheduler, 0);
    let ids: Vec<u32> = out.iter().map(|p| p.0).collect();
    assert_eq!(ids, [0, 1, 2, 3]);
    assert_eq!(out[1].1, 5);
    assert_eq!(out[2].1, 10);
    assert_eq!(out[3].1, 15);
}

#[test]
fn it_delivers_after_disconnect() {
    let mut scheduler = Scheduler::new();
    scheduler.schedule(0, 20, 0);
    scheduler.schedule(0, 21, 1);
    scheduler.schedule(0, 22, 2);
    scheduler.schedule(0, 23, 3);
    let ids: Vec<u32> = drain(&mut scheduler, 0).iter().map(|p| p.0).collect();
    assert_eq!(ids, [0, 1, 2, 3]);
}

#[test]
fn scheduler_keeps_order_of_equal_deadlines() {
    let mut scheduler = Scheduler::new();
    scheduler.schedule(100, 5, 7);
    scheduler.schedule(100, 5, 8);
    scheduler.schedule(103, 2, 9);
    assert_eq!(scheduler.pop_due(104), None);
    assert_eq!(scheduler.leeway(104), Some(1));
    assert_eq!(scheduler.pop_due(105), Some(7));
    assert_eq!(scheduler.pop_due(105), Some(8));
    assert_eq!(scheduler.pop_due(105), Some(9));
    assert_eq!(scheduler.leeway(105), None);
}

#[test]
fn unit_since_saturates() {
    let unit = Unit::new(1500, ());
    assert_eq!(unit.since(1000), 500);
    assert_eq!(unit.since(2000), 0);
}
