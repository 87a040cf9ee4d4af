use vstd::prelude::*;

verus! {

/// The fewest worker threads the server runs with.
pub const LOWEST_THREADS: usize = 4;

/// The port listened on when none is given.
pub const BIND_PORT: u16 = 8080;

/// Server settings given on the command line.
pub struct Cli {
    /// Worker threads; at least `LOWEST_THREADS` are used.
    pub threads: Option<usize>,
    pub bind_address: Option<String>,
    pub port: Option<u16>,
}

/// The thread count chosen before clamping: the one given, unless absent or
/// zero, else the machine's parallelism, else the lowest.
pub open spec fn chosen_threads(given: Option<usize>, available: Option<usize>) -> usize {
    match given {
        Some(t) if t > 0 => t,
        _ => match available {
            Some(a) => a,
            None => LOWEST_THREADS,
        },
    }
}

impl Cli {
    /// How many worker threads to start, given the parallelism the machine
    /// reports (if it reports one): never fewer than `LOWEST_THREADS`.
    pub fn worker_threads(&self, available: Option<usize>) -> (r: usize)
        ensures
            r == if chosen_threads(self.threads, available) < LOWEST_THREADS {
                LOWEST_THREADS
            } else {
                chosen_threads(self.threads, available)
            },
    {
        let chosen = match self.threads {
            Some(t) if t > 0 => t,
            _ => match available {
                Some(a) => a,
                None => LOWEST_THREADS,
            },
        };
        if chosen < LOWEST_THREADS {
            LOWEST_THREADS
        } else {
            chosen
        }
    }

    /// The address to bind: the one given, else every interface.
    pub fn bind_ip(&self) -> (r: String)
        ensures
            r@ == match self.bind_address {
                Some(a) => a@,
                None => "0.0.0.0"@,
            },
    {
        match &self.bind_address {
            Some(a) => a.clone(),
            None => "0.0.0.0".to_owned(),
        }
    }

    /// The port to bind: the one given, else `BIND_PORT`.
    pub fn bind_port(&self) -> (r: u16)
        ensures
            r == match self.port {
                Some(p) => p,
                None => BIND_PORT,
            },
    {
        match self.port {
            Some(p) => p,
            None => BIND_PORT,
        }
    }
}

} // verus!
