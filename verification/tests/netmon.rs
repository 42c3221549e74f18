//! Rebinds after link changes.

use ts_runtime::netmon::{next_input, Input, Ready, Step, Supervisor, MIN_REBIND_INTERVAL};

/// Drives a supervisor through inputs at instants in milliseconds, fires the deadlines that pass
/// meanwhile, and counts rebinds and measurements.
struct Driver {
    supervisor: Supervisor,
    rebinds: Vec<u64>,
    measures: usize,
}

impl Driver {
    fn new() -> Driver {
        Driver {
            supervisor: Supervisor::new(),
            rebinds: vec![],
            measures: 0,
        }
    }

    fn take(&mut self, input: Input, now: u64) -> Step {
        let step = self.supervisor.step(input, now);
        if step == Step::Rebind {
            self.rebinds.push(now / 1_000_000);
            assert_eq!(self.supervisor.rebound(now), Step::MeasureNow);
            self.measures += 1;
        }
        step
    }

    fn pass(&mut self, until_ms: u64) {
        while let Some(at) = self.supervisor.deadline() {
            if at > until_ms * 1_000_000 {
                return;
            }
            self.take(Input::Deadline, at);
        }
    }

    fn link_change(&mut self, at_ms: u64) {
        self.pass(at_ms);
        self.take(Input::LinkChange, at_ms * 1_000_000);
    }
}

#[test]
fn one_link_event_fires_one_rebind_and_one_measure_now() {
    let mut driver = Driver::new();
    driver.link_change(50);
    driver.pass(10_000);
    assert_eq!(driver.rebinds.len(), 1, "exactly one rebind");
    assert_eq!(driver.measures, 1, "exactly one measure-now");
}

#[test]
fn min_interval_defers_within_interval_event() {
    let mut driver = Driver::new();
    driver.link_change(30);
    assert_eq!(driver.rebinds, vec![30]);
    driver.link_change(60);
    driver.pass(260);
    assert_eq!(driver.rebinds.len(), 1, "deferred, not run immediately");
    driver.pass(1_330);
    assert_eq!(driver.rebinds, vec![30, 1_030], "exactly one deferred rebind");
}

#[test]
fn min_interval_coalesces_multiple_deferred_into_one() {
    let mut driver = Driver::new();
    driver.link_change(30);
    for at in [100, 170, 240] {
        driver.link_change(at);
    }
    assert_eq!(driver.rebinds.len(), 1, "events within the interval must not each trigger");
    driver.pass(10_000);
    assert_eq!(driver.rebinds, vec![30, 1_030], "they coalesce to exactly one deferred rebind");
}

#[test]
fn shutdown_ends_loop() {
    let mut driver = Driver::new();
    assert_eq!(driver.take(Input::Shutdown(true), 0), Step::Stop);
    assert_eq!(driver.take(Input::Shutdown(false), 0), Step::Wait);
    assert_eq!(driver.take(Input::StreamClosed, 0), Step::Stop);
    assert!(driver.rebinds.is_empty());
}

#[test]
fn what_is_ready_is_taken_in_order() {
    let all = Ready {
        shutdown: Some(true),
        link: Some(true),
        deadline: true,
    };
    assert_eq!(next_input(all), Some(Input::Shutdown(true)));
    let link = Ready {
        shutdown: None,
        ..all
    };
    assert_eq!(next_input(link), Some(Input::LinkChange));
    let closed = Ready {
        link: Some(false),
        ..link
    };
    assert_eq!(next_input(closed), Some(Input::StreamClosed));
    let due = Ready {
        link: None,
        ..link
    };
    assert_eq!(next_input(due), Some(Input::Deadline));
    let idle = Ready {
        deadline: false,
        ..due
    };
    assert_eq!(next_input(idle), None);
}

#[test]
fn the_interval_ends_on_the_instant() {
    let mut driver = Driver::new();
    driver.take(Input::LinkChange, 0);
    driver.take(Input::LinkChange, MIN_REBIND_INTERVAL - 1);
    assert_eq!(driver.supervisor.deadline(), Some(MIN_REBIND_INTERVAL));
    assert_eq!(driver.take(Input::LinkChange, MIN_REBIND_INTERVAL), Step::Rebind);
    assert_eq!(driver.supervisor.deadline(), None, "the owed rebind went with it");
    assert_eq!(driver.take(Input::Deadline, MIN_REBIND_INTERVAL + 1), Step::Wait);
}
