//! The parameters of one run, fixed when it starts.

use crate::packet::HS1;
use vstd::prelude::*;

verus! {

/// A probability, as the ratio of two whole numbers.
#[derive(Clone, Copy, Debug)]
pub struct Rate {
    pub numerator: u32,
    pub denominator: u32,
}

impl Rate {
    /// The ratio lies between 0 and 1.
    pub open spec fn wf(&self) -> bool {
        0 < self.denominator && self.numerator <= self.denominator
    }

    /// Probability 1.
    pub open spec fn is_certain(&self) -> bool {
        self.numerator == self.denominator
    }

    /// Probability 0.
    pub open spec fn is_never(&self) -> bool {
        self.numerator == 0
    }

    /// The ratio `numerator / denominator`, where it is a probability.
    pub fn new(numerator: u32, denominator: u32) -> (r: Option<Rate>)
        ensures
            r is Some <==> 0 < denominator && numerator <= denominator,
            r is Some ==> r->Some_0.numerator == numerator && r->Some_0.denominator == denominator,
    {
        if denominator == 0 || numerator > denominator {
            None
        } else {
            Some(Rate { numerator, denominator })
        }
    }

    /// Whether the ratio lies between 0 and 1.
    pub fn is_valid(&self) -> (b: bool)
        ensures
            b == self.wf(),
    {
        0 < self.denominator && self.numerator <= self.denominator
    }
}

/// The parameters of one run.
///
/// `single_timeout` is in milliseconds. `receive_rate` and `send_rate` are
/// the probabilities that a packet is delivered, not that it is lost.
#[derive(Clone, Copy, Debug)]
pub struct Config {
    pub is_server: bool,
    pub window: u8,
    pub seq_siz: u8,
    pub max_timeout: u32,
    pub single_timeout: u64,
    pub receive_rate: Rate,
    pub send_rate: Rate,
}

/// The flag that selects the responder's role.
pub open spec fn server_flag() -> Seq<char> {
    "--server"@
}

/// The flag that selects the initiator's role.
pub open spec fn client_flag() -> Seq<char> {
    "--client"@
}

/// The role that the first `n` arguments select: that of the last role flag
/// among them, the responder's where there is none.
pub open spec fn role_of(args: Seq<String>, n: int) -> bool
    decreases n,
{
    if n <= 0 {
        true
    } else if args[n - 1]@ == server_flag() {
        true
    } else if args[n - 1]@ == client_flag() {
        false
    } else {
        role_of(args, n - 1)
    }
}

impl Config {
    /// The window is positive and smaller than the sequence space, the
    /// sequence numbers and their acknowledgements lie below the control
    /// codes, a session tolerates at least one timeout, and both rates are
    /// probabilities.
    pub open spec fn wf(&self) -> bool {
        &&& 0 < self.window < self.seq_siz
        &&& 2 * self.seq_siz <= HS1
        &&& 0 < self.max_timeout
        &&& self.receive_rate.wf()
        &&& self.send_rate.wf()
    }

    /// Whether the parameters are well-formed.
    pub fn is_valid(&self) -> (b: bool)
        ensures
            b == self.wf(),
    {
        0 < self.window && self.window < self.seq_siz && self.seq_siz <= HS1 / 2
            && 0 < self.max_timeout && self.receive_rate.is_valid() && self.send_rate.is_valid()
    }

    /// The defaults, with the role that the arguments select. Arguments that
    /// are no role flag change nothing.
    pub fn parse(args: &[String]) -> (c: Config)
        ensures
            c.wf(),
            c == (Config { is_server: role_of(args@, args@.len() as int), ..Config::defaults() }),
    {
        let mut c = Self::new();
        let mut i: usize = 0;
        while i < args.len()
            invariant
                i <= args.len(),
                c == (Config { is_server: role_of(args@, i as int), ..Config::defaults() }),
            decreases args.len() - i,
        {
            let element = args[i].as_str();
            if element.eq("--server") {
                c.is_server = true;
            } else if element.eq("--client") {
                c.is_server = false;
            }
            i += 1;
        }
        c
    }

    /// Whether `arg` is one of the flags that `parse` knows.
    pub fn recognized(arg: &str) -> (b: bool)
        ensures
            b == (arg@ == server_flag() || arg@ == client_flag()),
    {
        arg.eq("--server") || arg.eq("--client")
    }

    /// The defaults: a responder, ten packets in flight in a sequence space
    /// of a hundred, fifteen timeouts of 100 ms each before a session breaks,
    /// four of five packets received, every packet sent.
    pub open spec fn defaults() -> Config {
        Config {
            is_server: true,
            window: 10,
            seq_siz: 100,
            max_timeout: 15,
            single_timeout: 100,
            receive_rate: Rate { numerator: 4, denominator: 5 },
            send_rate: Rate { numerator: 1, denominator: 1 },
        }
    }

    /// The default parameters.
    pub fn new() -> (c: Config)
        ensures
            c == Config::defaults(),
            c.wf(),
    {
        Config {
            is_server: true,
            window: 10,
            seq_siz: 100,
            max_timeout: 15,
            single_timeout: 100,
            receive_rate: Rate { numerator: 4, denominator: 5 },
            send_rate: Rate { numerator: 1, denominator: 1 },
        }
    }

    /// The name of the file that receives the reassembled stream.
    pub fn output_filename(&self) -> (name: String)
        ensures
            name@ == (if self.is_server {
                "server_output.txt"@
            } else {
                "client_output.txt"@
            }),
    {
        if self.is_server {
            "server_output.txt".to_owned()
        } else {
            "client_output.txt".to_owned()
        }
    }

    /// The name of the file that holds the stream to send.
    pub fn input_filename(&self) -> (name: String)
        ensures
            name@ == (if self.is_server {
                "server_input.txt"@
            } else {
                "client_input.txt"@
            }),
    {
        if self.is_server {
            "server_input.txt".to_owned()
        } else {
            "client_input.txt".to_owned()
        }
    }
}

} // verus!
