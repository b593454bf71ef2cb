//! The options of the environment-creating command.
use vstd::prelude::*;

verus! {

/// What the user asked for: the channels to search (repeatable, optional) and the match
/// specs to satisfy.
#[derive(Debug)]
pub struct Opt {
    pub channels: Option<Vec<String>>,
    pub specs: Vec<String>,
}

impl Opt {
    /// The channels to fetch: those given, or `conda-forge` when none were given.
    pub fn channel_names(&self) -> (r: Vec<String>)
        ensures
            match &self.channels {
                Some(c) => r@ == c@,
                None => r@.len() == 1 && r@[0]@ == "conda-forge"@,
            },
    {
        match &self.channels {
            Some(c) => {
                let mut r: Vec<String> = Vec::new();
                let mut i: usize = 0;
                while i < c.len()
                    invariant
                        i <= c@.len(),
                        r@ == c@.take(i as int),
                    decreases c@.len() - i,
                {
                    r.push(c[i].clone());
                    proof {
                        assert(c@.take(i + 1) =~= c@.take(i as int).push(c@[i as int]));
                    }
                    i = i + 1;
                }
                assert(c@.take(c@.len() as int) =~= c@);
                r
            },
            None => {
                let mut r: Vec<String> = Vec::new();
                r.push("conda-forge".to_owned());
                r
            },
        }
    }
}

} // verus!
