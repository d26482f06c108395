use vstd::prelude::*;

verus! {

/// A model of a broker controller's lifecycle as its bootstrap drives it: whether it was
/// started, and how often. It stands for the broker's own controller, which starts the broker's
/// servers and is not part of this library.
pub struct BrokerController {
    pub started: bool,
    /// How many times the controller was started.
    pub start_count: u64,
}

impl BrokerController {
    pub fn new() -> (r: BrokerController)
        ensures
            !r.started,
            r.start_count == 0,
    {
        BrokerController { started: false, start_count: 0 }
    }

    /// Marks the controller started and counts the start, saturating; starting a started
    /// controller again changes nothing.
    pub fn start(&mut self)
        ensures
            final(self).started,
            final(self).start_count == (if old(self).started || old(self).start_count == u64::MAX {
                old(self).start_count
            } else {
                (old(self).start_count + 1) as u64
            }),
    {
        if !self.started {
            self.started = true;
            if self.start_count < u64::MAX {
                self.start_count = self.start_count + 1;
            }
        }
    }
}

/// Starts `broker_controller` and hands it back, started.
pub fn start_broker_controller(broker_controller: BrokerController) -> (r: Result<BrokerController, ()>)
    ensures
        r matches Ok(c) && c.started && c.start_count == (if broker_controller.started
            || broker_controller.start_count == u64::MAX {
            broker_controller.start_count
        } else {
            (broker_controller.start_count + 1) as u64
        }),
{
    let mut broker_controller = broker_controller;
    broker_controller.start();
    Ok(broker_controller)
}

} // verus!
