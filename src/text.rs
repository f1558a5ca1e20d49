use vstd::prelude::*;

verus! {

/// Relies on `String::push`: appends one character at the end.
#[verifier::external_body]
pub(crate) fn push_char(s: &mut String, c: char)
    ensures
        final(s)@ == old(s)@.push(c),
{
    s.push(c)
}

/// The string whose characters are `cs`, in order.
pub fn string_of_chars(cs: &Vec<char>) -> (r: String)
    ensures
        r@ == cs@,
{
    let mut s = String::new();
    let mut i: usize = 0;
    while i < cs.len()
        invariant
            i <= cs.len(),
            s@ == cs@.subrange(0, i as int),
        decreases cs.len() - i,
    {
        push_char(&mut s, cs[i]);
        i = i + 1;
        assert(s@ =~= cs@.subrange(0, i as int));
    }
    assert(cs@.subrange(0, cs.len() as int) =~= cs@);
    s
}

/// The decimal digits of `n`, most significant first.
pub open spec fn decimal(n: nat) -> Seq<char>
    decreases n,
{
    if n < 10 {
        seq![(('0' as int) + n) as char]
    } else {
        decimal(n / 10).push((('0' as int) + (n % 10)) as char)
    }
}

fn push_decimal(s: &mut String, n: u32)
    ensures
        final(s)@ == old(s)@ + decimal(n as nat),
    decreases n,
{
    if n >= 10 {
        push_decimal(s, n / 10);
    }
    push_char(s, (('0' as u8) + (n % 10) as u8) as char);
    assert(final(s)@ =~= old(s)@ + decimal(n as nat));
}

/// The id of a record on the wire: `x/y` in decimal.
pub fn vec2id(v: crate::model::Vector2D) -> (s: String)
    ensures
        s@ == decimal(v.x as nat) + seq!['/'] + decimal(v.y as nat),
{
    let mut s = String::new();
    push_decimal(&mut s, v.x);
    push_char(&mut s, '/');
    push_decimal(&mut s, v.y);
    assert(s@ =~= decimal(v.x as nat) + seq!['/'] + decimal(v.y as nat));
    s
}

/// The library's name for its owner.
pub fn get_name() -> (s: String)
    ensures
        s@ == "alex"@,
{
    String::from_str("alex")
}

} // verus!
