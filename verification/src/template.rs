//! Definitions that are written from a pattern: the text of the pattern
//! with each `{}` replaced by the next of a list of texts.

use vstd::prelude::*;
use vstd::string::*;
use crate::text::{chars_of, decimal_digits, push_char, push_decimal};
use crate::writer::texts;

verus! {

/// Whether `pattern` begins with the hole `{}`.
pub open spec fn at_hole(pattern: Seq<char>) -> bool {
    pattern.len() >= 2 && pattern[0] == '{' && pattern[1] == '}'
}

/// The pattern with each hole `{}` replaced, in order, by the next of
/// `args`. A hole for which no text is left is replaced by nothing.
pub open spec fn filled(pattern: Seq<char>, args: Seq<Seq<char>>) -> Seq<char>
    decreases pattern.len(),
{
    if pattern.len() == 0 {
        seq![]
    } else if at_hole(pattern) {
        if args.len() > 0 {
            args[0] + filled(pattern.skip(2), args.drop_first())
        } else {
            filled(pattern.skip(2), args)
        }
    } else {
        seq![pattern[0]] + filled(pattern.drop_first(), args)
    }
}

/// The decimal notations of the numbers, in order.
pub open spec fn numbers(ids: Seq<int>) -> Seq<Seq<char>> {
    ids.map_values(|id: int| decimal_digits(id as nat))
}

/// The decimal notations of the ids, in order.
pub open spec fn decimals(ids: Seq<u64>) -> Seq<Seq<char>> {
    ids.map_values(|id: u64| decimal_digits(id as nat))
}

/// The pattern with its holes replaced, in order, by the texts of `args`.
pub fn fill(pattern: &str, args: &Vec<String>) -> (text: String)
    ensures
        text@ == filled(pattern@, texts(args@)),
{
    let chars = chars_of(pattern);
    let mut text = String::new();
    let mut i: usize = 0;
    let mut k: usize = 0;
    let ghost all = texts(args@);
    assert(chars@.skip(0) =~= chars@);
    assert(all.skip(0) =~= all);
    while i < chars.len()
        invariant
            i <= chars.len(),
            k <= args.len(),
            all == texts(args@),
            filled(chars@, all) == text@ + filled(chars@.skip(i as int), all.skip(k as int)),
        decreases chars.len() - i,
    {
        let ghost rest = chars@.skip(i as int);
        let ghost left = all.skip(k as int);
        let ghost before = text@;
        if chars[i] == '{' && i + 1 < chars.len() && chars[i + 1] == '}' {
            proof {
                assert(rest[0] == chars@[i as int]);
                assert(rest[1] == chars@[i + 1]);
                assert(rest.skip(2) =~= chars@.skip(i + 2));
            }
            if k < args.len() {
                text.append(args[k].as_str());
                proof {
                    assert(left[0] == args@[k as int]@);
                    assert(left.drop_first() =~= all.skip(k + 1));
                    assert(before + (left[0] + filled(rest.skip(2), left.drop_first())) =~= text@
                        + filled(rest.skip(2), left.drop_first()));
                }
                k += 1;
            }
            i += 2;
        } else {
            push_char(&mut text, chars[i]);
            proof {
                assert(rest[0] == chars@[i as int]);
                if rest.len() >= 2 {
                    assert(rest[1] == chars@[i + 1]);
                }
                assert(rest.drop_first() =~= chars@.skip(i + 1));
                assert(before + (seq![rest[0]] + filled(rest.drop_first(), left)) =~= text@
                    + filled(rest.drop_first(), left));
            }
            i += 1;
        }
    }
    assert(chars@.skip(i as int) =~= Seq::<char>::empty());
    assert(text@ + Seq::<char>::empty() =~= text@);
    text
}

/// The decimal notation of `n`.
pub fn decimal_string(n: u64) -> (text: String)
    ensures
        text@ == decimal_digits(n as nat),
{
    let mut text = String::new();
    push_decimal(&mut text, n);
    assert(Seq::<char>::empty() + decimal_digits(n as nat) =~= decimal_digits(n as nat));
    text
}

/// The decimal notations of the ids, in order.
pub fn decimal_strings(ids: &[u64]) -> (args: Vec<String>)
    ensures
        texts(args@) == decimals(ids@),
{
    let mut args: Vec<String> = Vec::new();
    let mut i: usize = 0;
    while i < ids.len()
        invariant
            i <= ids.len(),
            texts(args@) =~= decimals(ids@.take(i as int)),
        decreases ids.len() - i,
    {
        let ghost before = args@;
        args.push(decimal_string(ids[i]));
        proof {
            assert(ids@.take(i + 1) =~= ids@.take(i as int).push(ids@[i as int]));
            assert(texts(args@) =~= texts(before).push(decimal_digits(ids@[i as int] as nat)));
            assert(decimals(ids@.take(i + 1)) =~= decimals(ids@.take(i as int)).push(
                decimal_digits(ids@[i as int] as nat),
            ));
        }
        i += 1;
    }
    assert(ids@.take(i as int) =~= ids@);
    args
}

/// The pattern with its holes replaced, in order, by the decimal notations
/// of `ids`.
pub fn fill_ids(pattern: &str, ids: &[u64]) -> (text: String)
    ensures
        text@ == filled(pattern@, decimals(ids@)),
{
    let args = decimal_strings(ids);
    fill(pattern, &args)
}

} // verus!
