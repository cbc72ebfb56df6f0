//! Fresh names: a counter that makes each generated symbol distinct.
use vstd::prelude::*;
use vstd::string::StrSliceExecFns;

verus! {

/// The character of a decimal digit.
pub open spec fn digit_char(d: nat) -> char {
    seq!['0', '1', '2', '3', '4', '5', '6', '7', '8', '9'][d as int]
}

/// The decimal digits of `n`, most significant first.
pub open spec fn decimal(n: nat) -> Seq<char>
    decreases n,
{
    if n < 10 {
        seq![digit_char(n)]
    } else {
        decimal(n / 10).push(digit_char(n % 10))
    }
}

/// The name generated for `name` with counter value `n`: `#name#n`.
pub open spec fn symbol_name(name: Seq<char>, n: nat) -> Seq<char> {
    seq!['#'] + name + seq!['#'] + decimal(n)
}

/// Hands out names `#name#0`, `#name#1`, ... in order.
pub struct SymbolGenerator {
    counter: u128,
}

fn digit(d: u128) -> (r: char)
    requires
        d < 10,
    ensures
        r == digit_char(d as nat),
{
    let ds = vec!['0', '1', '2', '3', '4', '5', '6', '7', '8', '9'];
    assert(ds@ =~= seq!['0', '1', '2', '3', '4', '5', '6', '7', '8', '9']);
    ds[d as usize]
}

fn push_decimal(n: u128, out: &mut Vec<char>)
    ensures
        final(out)@ == old(out)@ + decimal(n as nat),
    decreases n,
{
    if n >= 10 {
        push_decimal(n / 10, out);
    }
    out.push(digit(n % 10));
    assert(out@ =~= old(out)@ + decimal(n as nat));
}

/// Relies on `FromIterator<char>` for `String`: the string of the given
/// characters in order.
#[verifier::external_body]
fn string_of(cs: &Vec<char>) -> (r: String)
    ensures
        r@ == cs@,
{
    cs.iter().collect()
}

impl core::default::Default for SymbolGenerator {
    fn default() -> (r: Self)
        ensures
            r.count() == 0,
    {
        SymbolGenerator { counter: 0 }
    }
}

impl SymbolGenerator {
    /// How many names were generated so far.
    pub closed spec fn count(&self) -> nat {
        self.counter as nat
    }

    /// The next name for `name`, then the counter moves on.
    pub fn gensym(&mut self, name: &str) -> (r: String)
        requires
            old(self).count() < u128::MAX,
        ensures
            r@ == symbol_name(name@, old(self).count()),
            final(self).count() == old(self).count() + 1,
    {
        let mut cs: Vec<char> = vec!['#'];
        let len = name.unicode_len();
        let mut i: usize = 0;
        while i < len
            invariant
                len == name@.len(),
                i <= len,
                cs@ == seq!['#'] + name@.take(i as int),
            decreases len - i,
        {
            cs.push(name.get_char(i));
            assert(name@.take(i + 1) =~= name@.take(i as int).push(name@[i as int]));
            i += 1;
        }
        assert(name@.take(len as int) =~= name@);
        cs.push('#');
        push_decimal(self.counter, &mut cs);
        assert(cs@ =~= symbol_name(name@, self.count()));
        self.counter = self.counter + 1;
        string_of(&cs)
    }
}

} // verus!
