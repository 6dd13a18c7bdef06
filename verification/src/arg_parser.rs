//! Command-line flags as key/value pairs.
//!
//! The embedding program hands over its raw argument list (without
//! the program name); consecutive entries pair up as key and value,
//! a trailing key without a value is dropped, and a repeated key
//! keeps its last value.

use vstd::prelude::*;
use crate::numbers::parse_i32;
use crate::numbers::spec_parse_i32;

verus! {

/// The key/value pairs an argument list parses to: entry `i` pairs
/// the list's element `2 i` with its element `2 i + 1`.
pub open spec fn spec_arg_pairs(args: Seq<Seq<char>>) -> Seq<(Seq<char>, Seq<char>)> {
    Seq::new(args.len() / 2, |i: int| (args[2 * i], args[2 * i + 1]))
}

/// The value stored for `key`: of all pairs with that key, the last
/// one wins.
pub open spec fn spec_lookup(pairs: Seq<(Seq<char>, Seq<char>)>, key: Seq<char>) -> Option<Seq<char>>
    decreases pairs.len(),
{
    if pairs.len() == 0 {
        None
    } else if pairs.last().0 == key {
        Some(pairs.last().1)
    } else {
        spec_lookup(pairs.drop_last(), key)
    }
}

/// Parsed command-line flags.
pub struct ArgParser {
    args: Vec<(String, String)>,
}

impl ArgParser {
    /// The pairs this parser holds.
    pub closed spec fn spec_pairs(&self) -> Seq<(Seq<char>, Seq<char>)> {
        self.args.deep_view()
    }

    /// Pair up the given argument list.
    #[verifier::loop_isolation(false)]
    pub fn new(args: &Vec<String>) -> (r: ArgParser)
        ensures
            r.spec_pairs() == spec_arg_pairs(args.deep_view()),
    {
        let ghost av = args.deep_view();
        let mut pairs: Vec<(String, String)> = Vec::new();
        let n = args.len();
        let mut i: usize = 0;
        proof {
            assert(pairs.deep_view() =~= spec_arg_pairs(av).take(0));
        }
        while i + 1 < n
            invariant
                0 <= i <= n,
                i % 2 == 0,
                pairs.deep_view() == spec_arg_pairs(av).take(i as int / 2),
            decreases n - i,
        {
            let ghost pre = pairs.deep_view();
            let ghost prev = pairs@;
            pairs.push((args[i].clone(), args[i + 1].clone()));
            proof {
                assert(pre.len() == prev.len());
                assert forall|k: int| 0 <= k < pairs@.len() implies #[trigger] pairs.deep_view()[k]
                    == spec_arg_pairs(av).take(i as int / 2 + 1)[k] by {
                    if k < prev.len() {
                        assert(pairs@[k] == prev[k]);
                    } else {
                        assert(pairs@[k] == pairs@[prev.len() as int]);
                        assert(av[2 * (i as int / 2)] == args@[i as int]@);
                        assert(av[2 * (i as int / 2) + 1] == args@[i as int + 1]@);
                    }
                }
                assert(pairs.deep_view() =~= spec_arg_pairs(av).take(i as int / 2 + 1));
            }
            i += 2;
        }
        proof {
            assert(i as int / 2 == av.len() as int / 2);
            assert(spec_arg_pairs(av).take(av.len() as int / 2) =~= spec_arg_pairs(av));
        }
        ArgParser { args: pairs }
    }

    /// The value stored for `key`, if any.
    #[verifier::loop_isolation(false)]
    pub fn get_string(&self, key: &str) -> (r: Option<String>)
        ensures
            r.deep_view() == spec_lookup(self.spec_pairs(), key@),
    {
        let needle = String::from_str(key);
        let n = self.args.len();
        let mut i: usize = 0;
        let mut found: Option<usize> = None;
        proof {
            assert(self.spec_pairs().take(0) =~= Seq::<(Seq<char>, Seq<char>)>::empty());
        }
        while i < n
            invariant
                0 <= i <= n,
                n == self.args@.len(),
                match found {
                    Some(j) => j < i && spec_lookup(self.spec_pairs().take(i as int), key@)
                        == Some(self.spec_pairs()[j as int].1),
                    None => spec_lookup(self.spec_pairs().take(i as int), key@) is None,
                },
            decreases n - i,
        {
            proof {
                assert(self.spec_pairs()[i as int] == self.args@[i as int].deep_view());
                assert(self.spec_pairs().take(i as int + 1).drop_last() =~= self.spec_pairs().take(
                    i as int,
                ));
                assert(self.spec_pairs().take(i as int + 1).last() == self.spec_pairs()[i as int]);
            }
            if self.args[i].0 == needle {
                found = Some(i);
            }
            i += 1;
        }
        proof {
            assert(self.spec_pairs().take(n as int) =~= self.spec_pairs());
        }
        match found {
            Some(j) => Some(self.args[j].1.clone()),
            None => None,
        }
    }

    /// The value stored for `key`, decimally parsed; `None` when the
    /// key is absent or its value is not a well-formed `i32`.
    pub fn get_int(&self, key: &str) -> (r: Option<i32>)
        ensures
            r == (match spec_lookup(self.spec_pairs(), key@) {
                Some(v) => spec_parse_i32(v),
                None => None,
            }),
    {
        match self.get_string(key) {
            Some(v) => parse_i32(v.as_str()),
            None => None,
        }
    }
}

} // verus!
