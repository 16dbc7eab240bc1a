//! The one error type of the crate: a message, and the causes under it.

use vstd::prelude::*;
use crate::text::{join, joined, texts};

verus! {

/// What went wrong, the outermost message first, each cause behind what it caused.
#[derive(Debug)]
pub struct Error {
    pub chain: Vec<String>,
}

impl View for Error {
    type V = Seq<Seq<char>>;

    open spec fn view(&self) -> Seq<Seq<char>> {
        texts(self.chain@)
    }
}

/// A result, its value by its view and its error by its messages.
pub open spec fn outcome<T: View>(r: Result<T, Error>) -> Result<T::V, Seq<Seq<char>>> {
    match r {
        Ok(t) => Ok(t@),
        Err(e) => Err(e@),
    }
}

/// The failure of the first element that fails a check.
pub open spec fn first_fault<W>(
    s: Seq<W>,
    check: spec_fn(W) -> Result<(), Seq<Seq<char>>>,
) -> Result<(), Seq<Seq<char>>>
    decreases s.len(),
{
    if s.len() == 0 {
        Ok(())
    } else {
        match first_fault(s.drop_last(), check) {
            Err(e) => Err(e),
            Ok(_) => check(s.last()),
        }
    }
}

/// One more element that passes the check.
pub proof fn lemma_fault_step<W>(
    s: Seq<W>,
    check: spec_fn(W) -> Result<(), Seq<Seq<char>>>,
    n: int,
)
    requires
        0 <= n < s.len(),
        first_fault(s.take(n), check) is Ok,
    ensures
        first_fault(s.take(n + 1), check) == check(s[n]),
        check(s[n]) is Err ==> first_fault(s, check) == check(s[n]),
        n + 1 == s.len() ==> first_fault(s, check) == check(s[n]),
{
    assert(s.take(n + 1).drop_last() =~= s.take(n));
    assert(s.take(n + 1).last() == s[n]);
    if check(s[n]) is Err {
        lemma_fault_prefix(s, check, n + 1);
    }
    if n + 1 == s.len() {
        assert(s.take(n + 1) =~= s);
    }
}

/// The first element that fails decides.
proof fn lemma_fault_prefix<W>(
    s: Seq<W>,
    check: spec_fn(W) -> Result<(), Seq<Seq<char>>>,
    n: int,
)
    requires
        0 <= n <= s.len(),
        first_fault(s.take(n), check) is Err,
    ensures
        first_fault(s, check) == first_fault(s.take(n), check),
    decreases s.len(),
{
    if n == s.len() {
        assert(s.take(n) =~= s);
    } else {
        assert(s.drop_last().take(n) =~= s.take(n));
        lemma_fault_prefix(s.drop_last(), check, n);
    }
}

/// Nothing fails where every element passes, and the other way round.
pub proof fn lemma_no_fault<W>(s: Seq<W>, check: spec_fn(W) -> Result<(), Seq<Seq<char>>>)
    ensures
        first_fault(s, check) is Ok <==> forall|i: int|
            0 <= i < s.len() ==> check(#[trigger] s[i]) is Ok,
    decreases s.len(),
{
    if s.len() > 0 {
        let t = s.drop_last();
        lemma_no_fault(t, check);
        assert(forall|i: int| 0 <= i < t.len() ==> t[i] == s[i]);
        if first_fault(s, check) is Ok {
            assert forall|i: int| 0 <= i < s.len() implies check(#[trigger] s[i]) is Ok by {
                if i < t.len() {
                    assert(check(t[i]) is Ok);
                }
            }
        } else if first_fault(t, check) is Err {
            let i = choose|i: int| 0 <= i < t.len() && !(check(#[trigger] t[i]) is Ok);
            assert(check(s[i]) is Err);
        } else {
            assert(check(s[s.len() - 1]) is Err);
        }
    }
}

impl Error {
    /// An error of one message.
    pub fn new(message: &str) -> (r: Error)
        ensures
            r@ == seq![message@],
    {
        let mut chain: Vec<String> = Vec::new();
        chain.push(message.to_owned());
        let e = Error { chain };
        assert(e@ =~= seq![message@]);
        e
    }

    /// An error of one message.
    pub fn of(message: String) -> (r: Error)
        ensures
            r@ == seq![message@],
    {
        let mut chain: Vec<String> = Vec::new();
        chain.push(message);
        let e = Error { chain };
        assert(e@ =~= seq![message@]);
        e
    }

    /// The error under a new outermost message.
    pub fn context(self, message: &str) -> (r: Error)
        ensures
            r@ == seq![message@] + self@,
    {
        let mut chain: Vec<String> = Vec::new();
        chain.push(message.to_owned());
        let mut rest = self.chain;
        let ghost top = chain@;
        chain.append(&mut rest);
        let e = Error { chain };
        assert(e@ =~= seq![message@] + self@);
        e
    }

    /// The outermost message.
    pub fn message(&self) -> (r: String)
        ensures
            self@.len() > 0 ==> r@ == self@[0],
            self@.len() == 0 ==> r@.len() == 0,
    {
        if self.chain.len() > 0 {
            self.chain[0].clone()
        } else {
            String::new()
        }
    }

    /// The whole chain on one line.
    pub fn detail(&self) -> (r: String)
        ensures
            r@ == joined(self@, ": "@),
    {
        join(&self.chain, ": ")
    }
}

/// The first of several faults is the one that is found.
pub proof fn lemma_first_fault<W>(
    s: Seq<W>,
    check: spec_fn(W) -> Result<(), Seq<Seq<char>>>,
    n: int,
)
    requires
        0 <= n < s.len(),
        forall|i: int| 0 <= i < n ==> check(#[trigger] s[i]) is Ok,
        check(s[n]) is Err,
    ensures
        first_fault(s, check) == check(s[n]),
{
    let t = s.take(n);
    assert forall|i: int| 0 <= i < t.len() implies check(#[trigger] t[i]) is Ok by {
        assert(t[i] == s[i]);
    }
    lemma_no_fault(t, check);
    lemma_fault_step(s, check, n);
}

/// An error tells its last context first and its cause last, one behind the other.
pub proof fn law_errors_tell_their_causes(
    message: &str,
    fresh: Error,
    error: Error,
    wider: Error,
    shown: &Error,
    first: String,
    whole: String,
)
    requires
        call_ensures(Error::new, (message,), fresh),
        call_ensures(Error::context, (error, message), wider),
        call_ensures(Error::message, (shown,), first),
        call_ensures(Error::detail, (shown,), whole),
    ensures
        fresh@ == seq![message@],
        wider@.len() == error@.len() + 1 && wider@[0] == message@ && wider@.skip(1) == error@,
        shown@.len() > 0 ==> first@ == shown@[0],
        shown@.len() == 1 ==> whole@ == shown@[0],
        shown@.len() == 2 ==> whole@ == shown@[0] + ": "@ + shown@[1],
{
    assert(wider@.skip(1) =~= error@);
    if shown@.len() == 2 {
        let front = shown@.drop_last();
        assert(joined(front, ": "@) == shown@[0]);
        assert(joined(shown@, ": "@) == joined(front, ": "@) + ": "@ + shown@.last());
    }
}

} // verus!
