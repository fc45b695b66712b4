use vstd::prelude::*;

verus! {

/// The characters of `s`, in order.
pub fn chars_of(s: &str) -> (res: Vec<char>)
    ensures
        res@ == s@,
{
    let mut res: Vec<char> = Vec::new();
    for c in it: s.chars()
        invariant
            res@ == it.seq().take(it.index() as int),
            it.seq() == s@,
    {
        res.push(c);
    }
    res
}

/// `String::push`: the string grows by the one character `c` at its end.
#[verifier::external_body]
fn push_char(s: &mut String, c: char)
    ensures
        final(s)@ == old(s)@.push(c),
{
    s.push(c);
}

/// The string made of `chars[start..end]`.
pub fn string_from(chars: &Vec<char>, start: usize, end: usize) -> (res: String)
    requires
        start <= end <= chars@.len(),
    ensures
        res@ == chars@.subrange(start as int, end as int),
{
    let mut res = String::new();
    let mut i = start;
    while i < end
        invariant
            start <= i <= end <= chars@.len(),
            res@ == chars@.subrange(start as int, i as int),
        decreases end - i,
    {
        push_char(&mut res, chars[i]);
        assert(chars@.subrange(start as int, i + 1) =~= chars@.subrange(start as int, i as int).push(chars@[i as int]));
        i += 1;
    }
    res
}

/// The string `a` followed by `b`.
pub fn concat(a: &str, b: &str) -> (res: String)
    ensures
        res@ == a@ + b@,
{
    let mut res = a.to_owned();
    for c in it: b.chars()
        invariant
            res@ == a@ + it.seq().take(it.index() as int),
            it.seq() == b@,
    {
        push_char(&mut res, c);
        assert(a@ + it.seq().take(it.index() + 1) =~= (a@ + it.seq().take(it.index() as int)).push(c));
    }
    res
}

} // verus!
