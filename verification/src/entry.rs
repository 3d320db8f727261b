//! The entries of a STEP data section, the references that an entry's
//! definition holds, and the rewriting of those references.

use vstd::prelude::*;
use vstd::string::*;
use crate::text::{
    all_digits,
    char_is_digit,
    chars_of,
    decimal_digits,
    decimal_value,
    is_digit,
    lemma_decimal_round_trip,
    parse_decimal,
    push_char,
    push_decimal,
};

verus! {

/// Where the scan of a definition stands: in plain text, in the digits behind
/// a `#`, or inside a single-quoted string.
#[derive(Clone, Copy, Debug)]
pub enum Mode {
    Definition,
    Reference,
    String,
}

/// The mode that plain text is left for by the character `c`.
pub open spec fn enter(c: char) -> Mode {
    if c == '#' {
        Mode::Reference
    } else if c == '\'' {
        Mode::String
    } else {
        Mode::Definition
    }
}

/// The mode that a string is left for, or not, by the character `c`.
pub open spec fn enter_from_string(c: char) -> Mode {
    if c == '\'' {
        Mode::Definition
    } else {
        Mode::String
    }
}

/// The reference that the digits `pending` behind a `#` make: none where no
/// digit follows the `#`.
pub open spec fn flush_references(pending: Seq<char>) -> Seq<u64> {
    if pending.len() == 0 {
        seq![]
    } else {
        seq![decimal_value(pending) as u64]
    }
}

/// The references in the text `s`, in order, for a scan that stands in `mode`
/// and has read the digits `pending` of a reference.
pub open spec fn scan_references(s: Seq<char>, mode: Mode, pending: Seq<char>) -> Seq<u64>
    decreases s.len(),
{
    if s.len() == 0 {
        if mode is Reference {
            flush_references(pending)
        } else {
            seq![]
        }
    } else {
        let c = s[0];
        let rest = s.drop_first();
        match mode {
            Mode::Definition => scan_references(rest, enter(c), seq![]),
            Mode::Reference => if is_digit(c) {
                scan_references(rest, Mode::Reference, pending.push(c))
            } else {
                flush_references(pending) + scan_references(rest, enter(c), seq![])
            },
            Mode::String => scan_references(rest, enter_from_string(c), seq![]),
        }
    }
}

/// Whether each reference in `s` fits into 64 bits, for a scan in the state
/// that `scan_references` describes.
pub open spec fn scan_fits(s: Seq<char>, mode: Mode, pending: Seq<char>) -> bool
    decreases s.len(),
{
    if s.len() == 0 {
        mode is Reference ==> decimal_value(pending) <= u64::MAX
    } else {
        let c = s[0];
        let rest = s.drop_first();
        match mode {
            Mode::Definition => scan_fits(rest, enter(c), seq![]),
            Mode::Reference => if is_digit(c) {
                scan_fits(rest, Mode::Reference, pending.push(c))
            } else {
                decimal_value(pending) <= u64::MAX && scan_fits(rest, enter(c), seq![])
            },
            Mode::String => scan_fits(rest, enter_from_string(c), seq![]),
        }
    }
}

/// What is written for a `#` and the digits `pending` behind it: the `#`
/// alone where no digit follows, else the `#` and the first of `ids`.
pub open spec fn reference_text(pending: Seq<char>, ids: Seq<u64>) -> Seq<char> {
    if pending.len() == 0 {
        seq!['#']
    } else {
        seq!['#'] + decimal_digits(ids[0] as nat)
    }
}

/// The ids that are left once the reference with the digits `pending` is
/// written.
pub open spec fn after_reference(pending: Seq<char>, ids: Seq<u64>) -> Seq<u64> {
    if pending.len() == 0 {
        ids
    } else {
        ids.drop_first()
    }
}

/// What plain text keeps of the character `c`: everything but a `#`, which is
/// written together with its digits.
pub open spec fn keep(c: char) -> Seq<char> {
    if c == '#' {
        seq![]
    } else {
        seq![c]
    }
}

/// The text `s` with its references replaced, in order, by `ids`, for a scan
/// in the state that `scan_references` describes.
pub open spec fn substitute(s: Seq<char>, mode: Mode, pending: Seq<char>, ids: Seq<u64>) -> Seq<
    char,
>
    decreases s.len(),
{
    if s.len() == 0 {
        if mode is Reference {
            reference_text(pending, ids)
        } else {
            seq![]
        }
    } else {
        let c = s[0];
        let rest = s.drop_first();
        match mode {
            Mode::Definition => keep(c) + substitute(rest, enter(c), seq![], ids),
            Mode::Reference => if is_digit(c) {
                substitute(rest, Mode::Reference, pending.push(c), ids)
            } else {
                reference_text(pending, ids) + keep(c) + substitute(
                    rest,
                    enter(c),
                    seq![],
                    after_reference(pending, ids),
                )
            },
            Mode::String => seq![c] + substitute(rest, enter_from_string(c), seq![], ids),
        }
    }
}

/// The references of a definition: the numbers whose digits follow a `#`
/// directly, in the order of the text. A `#` inside a single-quoted string is
/// text, and so is a `#` that no digit follows.
pub open spec fn references(definition: Seq<char>) -> Seq<u64> {
    scan_references(definition, Mode::Definition, seq![])
}

/// Whether each reference of the definition fits into 64 bits.
pub open spec fn references_fit(definition: Seq<char>) -> bool {
    scan_fits(definition, Mode::Definition, seq![])
}

/// The definition with its references replaced, in order, by `ids`; all other
/// text stays as it is.
pub open spec fn with_references(definition: Seq<char>, ids: Seq<u64>) -> Seq<char> {
    substitute(definition, Mode::Definition, seq![], ids)
}

/// The definition with each reference `r` replaced by `g(r)`.
pub open spec fn map_references(definition: Seq<char>, g: spec_fn(u64) -> u64) -> Seq<char> {
    with_references(definition, references(definition).map_values(g))
}

/// `ys` holds, place by place, a value that `f` may return for the value of
/// `xs` at that place.
pub open spec fn maps_to<F: Fn(u64) -> u64>(f: F, xs: Seq<u64>, ys: Seq<u64>) -> bool {
    &&& xs.len() == ys.len()
    &&& forall|i: int| 0 <= i < xs.len() ==> call_ensures(f, (xs[i],), #[trigger] ys[i])
}

/// The mode in which the rewritten text is scanned while the text it was made
/// from is scanned in `mode`: a `#` is written only together with its digits,
/// so the rewritten text is still plain text while the other stands in a
/// reference.
pub open spec fn written_mode(mode: Mode) -> Mode {
    match mode {
        Mode::Reference => Mode::Definition,
        _ => mode,
    }
}

/// A rewritten text that continues a reference begins with `#`.
proof fn lemma_reference_begins_with_hash(s: Seq<char>, pending: Seq<char>, ids: Seq<u64>)
    ensures
        substitute(s, Mode::Reference, pending, ids).len() > 0,
        substitute(s, Mode::Reference, pending, ids)[0] == '#',
    decreases s.len(),
{
    if s.len() > 0 && is_digit(s[0]) {
        lemma_reference_begins_with_hash(s.drop_first(), pending.push(s[0]), ids);
    }
}

/// Where the digits of a reference end, the reference is complete and the
/// scan goes on in plain text.
proof fn lemma_scan_at_end_of_digits(x: Seq<char>, pending: Seq<char>)
    requires
        x.len() == 0 || !is_digit(x[0]),
    ensures
        scan_references(x, Mode::Reference, pending) == flush_references(pending)
            + scan_references(x, Mode::Definition, seq![]),
        scan_fits(x, Mode::Reference, pending) == (decimal_value(pending) <= u64::MAX && scan_fits(
            x,
            Mode::Definition,
            seq![],
        )),
{
    if x.len() == 0 {
        assert(flush_references(pending) + Seq::<u64>::empty() =~= flush_references(pending));
    }
}

/// Digits behind a `#` are collected.
proof fn lemma_scan_digits(d: Seq<char>, x: Seq<char>, pending: Seq<char>)
    requires
        all_digits(d),
    ensures
        scan_references(d + x, Mode::Reference, pending) == scan_references(
            x,
            Mode::Reference,
            pending + d,
        ),
        scan_fits(d + x, Mode::Reference, pending) == scan_fits(x, Mode::Reference, pending + d),
    decreases d.len(),
{
    if d.len() == 0 {
        assert(d + x =~= x);
        assert(pending + d =~= pending);
    } else {
        assert((d + x)[0] == d[0]);
        assert((d + x).drop_first() =~= d.drop_first() + x);
        assert(pending.push(d[0]) + d.drop_first() =~= pending + d);
        assert forall|i: int| 0 <= i < d.drop_first().len() implies is_digit(
            #[trigger] d.drop_first()[i],
        ) by {
            assert(d.drop_first()[i] == d[i + 1]);
        }
        lemma_scan_digits(d.drop_first(), x, pending.push(d[0]));
    }
}

/// One character of plain text and what follows it.
proof fn lemma_scan_kept(c: char, t: Seq<char>)
    requires
        c == '#' ==> t.len() > 0 && t[0] == '#',
    ensures
        scan_references(keep(c) + t, Mode::Definition, seq![]) == scan_references(
            t,
            written_mode(enter(c)),
            seq![],
        ),
        scan_fits(keep(c) + t, Mode::Definition, seq![]) == scan_fits(
            t,
            written_mode(enter(c)),
            seq![],
        ),
        !is_digit(c) ==> (keep(c) + t).len() == 0 || !is_digit((keep(c) + t)[0]),
{
    if c == '#' {
        assert(keep(c) + t =~= t);
    } else {
        assert((keep(c) + t)[0] == c);
        assert((keep(c) + t).drop_first() =~= t);
    }
}

/// The references of a rewritten text are the ids that were written, and
/// each of them fits into 64 bits.
proof fn lemma_substitute(s: Seq<char>, mode: Mode, pending: Seq<char>, ids: Seq<u64>)
    requires
        ids.len() == scan_references(s, mode, pending).len(),
    ensures
        scan_references(substitute(s, mode, pending, ids), written_mode(mode), seq![]) == ids,
        scan_fits(substitute(s, mode, pending, ids), written_mode(mode), seq![]),
    decreases s.len(),
{
    let out = substitute(s, mode, pending, ids);
    let none = Seq::<char>::empty();
    if s.len() == 0 {
        if mode is Reference {
            lemma_written_reference(pending, ids, none);
            assert(reference_text(pending, ids) + none =~= out);
            assert(flush_references(pending).len() == ids.len());
            assert(after_reference(pending, ids) =~= Seq::<u64>::empty());
            if pending.len() > 0 {
                assert(seq![ids[0]] + Seq::<u64>::empty() =~= ids);
            }
        } else {
            assert(ids =~= Seq::<u64>::empty());
        }
    } else {
        let c = s[0];
        let rest = s.drop_first();
        match mode {
            Mode::Definition => {
                let t = substitute(rest, enter(c), none, ids);
                lemma_substitute(rest, enter(c), none, ids);
                if c == '#' {
                    lemma_reference_begins_with_hash(rest, none, ids);
                }
                lemma_scan_kept(c, t);
            },
            Mode::String => {
                let t = substitute(rest, enter_from_string(c), none, ids);
                lemma_substitute(rest, enter_from_string(c), none, ids);
                assert(out[0] == c);
                assert(out.drop_first() =~= t);
            },
            Mode::Reference => {
                if is_digit(c) {
                    lemma_substitute(rest, Mode::Reference, pending.push(c), ids);
                } else {
                    let left = after_reference(pending, ids);
                    let t = substitute(rest, enter(c), none, left);
                    let x = keep(c) + t;
                    assert(ids.len() == flush_references(pending).len() + scan_references(
                        rest,
                        enter(c),
                        none,
                    ).len());
                    lemma_substitute(rest, enter(c), none, left);
                    if c == '#' {
                        lemma_reference_begins_with_hash(rest, none, left);
                    }
                    lemma_scan_kept(c, t);
                    lemma_written_reference(pending, ids, x);
                    assert(reference_text(pending, ids) + x =~= out);
                    if pending.len() > 0 {
                        assert(seq![ids[0]] + ids.drop_first() =~= ids);
                    } else {
                        assert(Seq::<u64>::empty() + ids =~= ids);
                    }
                }
            },
        }
    }
}

/// A written reference, followed by text that begins with no digit, is
/// scanned as that reference and then as the text that follows.
proof fn lemma_written_reference(pending: Seq<char>, ids: Seq<u64>, x: Seq<char>)
    requires
        x.len() == 0 || !is_digit(x[0]),
        pending.len() > 0 ==> ids.len() > 0,
    ensures
        scan_references(reference_text(pending, ids) + x, Mode::Definition, seq![]) == (if pending.len()
            == 0 {
            Seq::<u64>::empty()
        } else {
            seq![ids[0]]
        }) + scan_references(x, Mode::Definition, seq![]),
        scan_fits(reference_text(pending, ids) + x, Mode::Definition, seq![]) == scan_fits(
            x,
            Mode::Definition,
            seq![],
        ),
{
    let none = Seq::<char>::empty();
    let r = reference_text(pending, ids);
    assert((r + x)[0] == '#');
    if pending.len() == 0 {
        assert((r + x).drop_first() =~= x);
        lemma_scan_at_end_of_digits(x, none);
        assert(decimal_value(none) == 0);
    } else {
        let d = decimal_digits(ids[0] as nat);
        lemma_decimal_round_trip(ids[0] as nat);
        assert((r + x).drop_first() =~= d + x);
        lemma_scan_digits(d, x, none);
        assert(none + d =~= d);
        lemma_scan_at_end_of_digits(x, d);
    }
}

/// The references of a definition whose references were replaced by `ids`
/// are `ids`, and they fit into 64 bits.
pub proof fn lemma_references_of_rewritten(definition: Seq<char>, ids: Seq<u64>)
    requires
        ids.len() == references(definition).len(),
    ensures
        references(with_references(definition, ids)) == ids,
        references_fit(with_references(definition, ids)),
{
    lemma_substitute(definition, Mode::Definition, seq![], ids);
}

/// Rewriting commutes with reading the references: where each reference `r`
/// of a definition is replaced by `g(r)`, the references of the result are
/// those of the definition with `g` applied to each, in the same order.
pub proof fn lemma_rewrite_is_homomorphism(definition: Seq<char>, g: spec_fn(u64) -> u64)
    ensures
        references(map_references(definition, g)) == references(definition).map_values(g),
        references_fit(map_references(definition, g)),
{
    lemma_references_of_rewritten(definition, references(definition).map_values(g));
}

/// What an entry is to a reader of the crate: its id and the text of its
/// definition.
pub struct EntryView {
    pub id: u64,
    pub definition: Seq<char>,
}

/// A single entry `#id = definition;` of a STEP data section.
#[derive(Debug, PartialEq, Eq, Hash)]
pub struct StepEntry {
    /// The id of the entry, unique within its file.
    id: u64,
    /// The text between `=` and `;`.
    definition: String,
}

impl View for StepEntry {
    type V = EntryView;

    closed spec fn view(&self) -> EntryView {
        EntryView { id: self.id, definition: self.definition@ }
    }
}

impl Clone for StepEntry {
    fn clone(&self) -> (res: Self)
        ensures
            res == *self,
    {
        StepEntry { id: self.id, definition: self.definition.clone() }
    }
}

/// The mode that plain text is left for by `c`.
fn mode_after(c: char) -> (mode: Mode)
    ensures
        mode == enter(c),
{
    if c == '#' {
        Mode::Reference
    } else if c == '\'' {
        Mode::String
    } else {
        Mode::Definition
    }
}

/// The mode that a string is left for, or not, by `c`.
fn mode_after_in_string(c: char) -> (mode: Mode)
    ensures
        mode == enter_from_string(c),
{
    if c == '\'' {
        Mode::Definition
    } else {
        Mode::String
    }
}

/// The references in `chars`, in the order of the text.
fn scan(chars: &Vec<char>) -> (result: Vec<u64>)
    requires
        references_fit(chars@),
    ensures
        result@ == references(chars@),
{
    let mut result: Vec<u64> = Vec::new();
    let mut mode = Mode::Definition;
    let mut start: usize = 0;
    let mut i: usize = 0;
    assert(chars@.skip(0) =~= chars@);
    assert(chars@.subrange(0, 0) =~= Seq::<char>::empty());
    while i < chars.len()
        invariant
            start <= i <= chars.len(),
            all_digits(chars@.subrange(start as int, i as int)),
            !(mode is Reference) ==> start == i,
            references(chars@) == result@ + scan_references(
                chars@.skip(i as int),
                mode,
                chars@.subrange(start as int, i as int),
            ),
            scan_fits(chars@.skip(i as int), mode, chars@.subrange(start as int, i as int)),
        decreases chars.len() - i,
    {
        let c = chars[i];
        let ghost pending = chars@.subrange(start as int, i as int);
        proof {
            assert(chars@.skip(i as int)[0] == c);
            assert(chars@.skip(i as int).drop_first() =~= chars@.skip(i + 1));
            assert(chars@.subrange(i + 1, i + 1) =~= Seq::<char>::empty());
        }
        match mode {
            Mode::Definition => {
                mode = mode_after(c);
                start = i + 1;
            },
            Mode::Reference => {
                if char_is_digit(c) {
                    proof {
                        assert(pending.push(c) =~= chars@.subrange(start as int, i + 1));
                    }
                } else {
                    let ghost before = result@;
                    if start < i {
                        let value = parse_decimal(chars, start, i);
                        result.push(value.unwrap());
                    }
                    proof {
                        let tail = scan_references(chars@.skip(i + 1), enter(c), seq![]);
                        assert(result@ =~= before + flush_references(pending));
                        assert(before + (flush_references(pending) + tail) =~= result@ + tail);
                    }
                    mode = mode_after(c);
                    start = i + 1;
                }
            },
            Mode::String => {
                mode = mode_after_in_string(c);
                start = i + 1;
            },
        }
        i += 1;
    }
    assert(chars@.skip(i as int) =~= Seq::<char>::empty());
    let ghost before = result@;
    match mode {
        Mode::Reference => {
            if start < i {
                let value = parse_decimal(chars, start, i);
                result.push(value.unwrap());
            }
            assert(result@ =~= before + flush_references(chars@.subrange(start as int, i as int)));
        },
        _ => {
            assert(result@ =~= before + Seq::<u64>::empty());
        },
    }
    result
}

/// The text `chars` with its references replaced, in order, by `ids`.
fn rewrite(chars: &Vec<char>, ids: &Vec<u64>) -> (out: String)
    requires
        ids@.len() == references(chars@).len(),
    ensures
        out@ == with_references(chars@, ids@),
{
    let mut out = String::new();
    let mut mode = Mode::Definition;
    let mut start: usize = 0;
    let mut i: usize = 0;
    let mut k: usize = 0;
    assert(chars@.skip(0) =~= chars@);
    assert(ids@.skip(0) =~= ids@);
    assert(chars@.subrange(0, 0) =~= Seq::<char>::empty());
    while i < chars.len()
        invariant
            start <= i <= chars.len(),
            k <= ids.len(),
            !(mode is Reference) ==> start == i,
            ids@.len() - k == scan_references(
                chars@.skip(i as int),
                mode,
                chars@.subrange(start as int, i as int),
            ).len(),
            with_references(chars@, ids@) == out@ + substitute(
                chars@.skip(i as int),
                mode,
                chars@.subrange(start as int, i as int),
                ids@.skip(k as int),
            ),
        decreases chars.len() - i,
    {
        let c = chars[i];
        let ghost pending = chars@.subrange(start as int, i as int);
        let ghost before = out@;
        let ghost left = ids@.skip(k as int);
        proof {
            assert(chars@.skip(i as int)[0] == c);
            assert(chars@.skip(i as int).drop_first() =~= chars@.skip(i + 1));
            assert(chars@.subrange(i + 1, i + 1) =~= Seq::<char>::empty());
        }
        match mode {
            Mode::Definition => {
                if c != '#' {
                    push_char(&mut out, c);
                }
                proof {
                    let tail = substitute(chars@.skip(i + 1), enter(c), seq![], left);
                    assert(out@ =~= before + keep(c));
                    assert(before + (keep(c) + tail) =~= out@ + tail);
                }
                mode = mode_after(c);
                start = i + 1;
            },
            Mode::Reference => {
                if char_is_digit(c) {
                    proof {
                        assert(pending.push(c) =~= chars@.subrange(start as int, i + 1));
                    }
                } else {
                    push_char(&mut out, '#');
                    if start < i {
                        push_decimal(&mut out, ids[k]);
                        proof {
                            assert(left[0] == ids@[k as int]);
                            assert(left.drop_first() =~= ids@.skip(k + 1));
                        }
                        k += 1;
                    }
                    if c != '#' {
                        push_char(&mut out, c);
                    }
                    proof {
                        let tail = substitute(
                            chars@.skip(i + 1),
                            enter(c),
                            seq![],
                            after_reference(pending, left),
                        );
                        assert(out@ =~= before + reference_text(pending, left) + keep(c));
                        assert(before + (reference_text(pending, left) + keep(c) + tail) =~= out@
                            + tail);
                    }
                    mode = mode_after(c);
                    start = i + 1;
                }
            },
            Mode::String => {
                push_char(&mut out, c);
                proof {
                    let tail = substitute(chars@.skip(i + 1), enter_from_string(c), seq![], left);
                    assert(before + (seq![c] + tail) =~= out@ + tail);
                }
                mode = mode_after_in_string(c);
                start = i + 1;
            },
        }
        i += 1;
    }
    assert(chars@.skip(i as int) =~= Seq::<char>::empty());
    let ghost before = out@;
    match mode {
        Mode::Reference => {
            push_char(&mut out, '#');
            if start < i {
                push_decimal(&mut out, ids[k]);
                assert(ids@.skip(k as int)[0] == ids@[k as int]);
            }
            assert(out@ =~= before + reference_text(
                chars@.subrange(start as int, i as int),
                ids@.skip(k as int),
            ));
        },
        _ => {
            assert(out@ =~= before + Seq::<char>::empty());
        },
    }
    out
}

/// Whether each reference in `chars` fits into 64 bits.
fn check_fit(chars: &Vec<char>) -> (fit: bool)
    ensures
        fit == references_fit(chars@),
{
    let mut mode = Mode::Definition;
    let mut start: usize = 0;
    let mut i: usize = 0;
    assert(chars@.skip(0) =~= chars@);
    assert(chars@.subrange(0, 0) =~= Seq::<char>::empty());
    while i < chars.len()
        invariant
            start <= i <= chars.len(),
            all_digits(chars@.subrange(start as int, i as int)),
            !(mode is Reference) ==> start == i,
            references_fit(chars@) == scan_fits(
                chars@.skip(i as int),
                mode,
                chars@.subrange(start as int, i as int),
            ),
        decreases chars.len() - i,
    {
        let c = chars[i];
        let ghost pending = chars@.subrange(start as int, i as int);
        proof {
            assert(chars@.skip(i as int)[0] == c);
            assert(chars@.skip(i as int).drop_first() =~= chars@.skip(i + 1));
            assert(chars@.subrange(i + 1, i + 1) =~= Seq::<char>::empty());
        }
        match mode {
            Mode::Definition => {
                mode = mode_after(c);
                start = i + 1;
            },
            Mode::Reference => {
                if char_is_digit(c) {
                    proof {
                        assert(pending.push(c) =~= chars@.subrange(start as int, i + 1));
                    }
                } else {
                    if parse_decimal(chars, start, i).is_none() {
                        return false;
                    }
                    mode = mode_after(c);
                    start = i + 1;
                }
            },
            Mode::String => {
                mode = mode_after_in_string(c);
                start = i + 1;
            },
        }
        i += 1;
    }
    assert(chars@.skip(i as int) =~= Seq::<char>::empty());
    match mode {
        Mode::Reference => parse_decimal(chars, start, i).is_some(),
        _ => true,
    }
}

impl StepEntry {
    /// An entry with the given id and definition.
    pub fn new(id: u64, definition: &str) -> (entry: StepEntry)
        ensures
            entry@.id == id,
            entry@.definition == definition@,
    {
        StepEntry { id, definition: definition.to_owned() }
    }

    /// The id of the entry.
    pub fn get_id(&self) -> (id: u64)
        ensures
            id == self@.id,
    {
        self.id
    }

    /// The definition of the entry.
    pub fn get_definition(&self) -> (definition: &str)
        ensures
            definition@ == self@.definition,
    {
        self.definition.as_str()
    }

    /// Whether every reference in the definition fits into 64 bits: what
    /// `get_references` and `update_references` ask of an entry.
    pub fn has_valid_references(&self) -> (valid: bool)
        ensures
            valid == references_fit(self@.definition),
    {
        let chars = chars_of(self.definition.as_str());
        check_fit(&chars)
    }

    /// Replaces the id of the entry by what `f` returns for it, and each
    /// reference in the definition by what `f` returns for that reference.
    /// The callers pass a strictly monotone `f`, so that ids stay distinct.
    pub fn update_references<F: Fn(u64) -> u64>(&mut self, f: F)
        requires
            references_fit(old(self)@.definition),
            call_requires(f, (old(self)@.id,)),
            forall|i: int|
                0 <= i < references(old(self)@.definition).len() ==> call_requires(
                    f,
                    (#[trigger] references(old(self)@.definition)[i],),
                ),
        ensures
            call_ensures(f, (old(self)@.id,), final(self)@.id),
            exists|ids: Seq<u64>|
                maps_to(f, references(old(self)@.definition), ids) && final(self)@.definition
                    == with_references(old(self)@.definition, ids),
            maps_to(
                f,
                references(old(self)@.definition),
                references(final(self)@.definition),
            ),
            references_fit(final(self)@.definition),
    {
        self.update_references_by(&f)
    }

    /// `update_references` for a function that the caller keeps.
    pub fn update_references_by<F: Fn(u64) -> u64>(&mut self, f: &F)
        requires
            references_fit(old(self)@.definition),
            call_requires(*f, (old(self)@.id,)),
            forall|i: int|
                0 <= i < references(old(self)@.definition).len() ==> call_requires(
                    *f,
                    (#[trigger] references(old(self)@.definition)[i],),
                ),
        ensures
            call_ensures(*f, (old(self)@.id,), final(self)@.id),
            exists|ids: Seq<u64>|
                maps_to(*f, references(old(self)@.definition), ids) && final(self)@.definition
                    == with_references(old(self)@.definition, ids),
            maps_to(
                *f,
                references(old(self)@.definition),
                references(final(self)@.definition),
            ),
            references_fit(final(self)@.definition),
    {
        self.id = f(self.id);
        let chars = chars_of(self.definition.as_str());
        let found = scan(&chars);
        let mut ids: Vec<u64> = Vec::new();
        let mut i: usize = 0;
        while i < found.len()
            invariant
                i <= found.len(),
                found@ == references(chars@),
                chars@ == old(self)@.definition,
                maps_to(*f, found@.take(i as int), ids@),
                forall|j: int| 0 <= j < found@.len() ==> call_requires(*f, (#[trigger] found@[j],)),
            decreases found.len() - i,
        {
            let id = f(found[i]);
            let ghost before = ids@;
            ids.push(id);
            proof {
                let xs = found@.take(i + 1);
                assert forall|j: int| 0 <= j < xs.len() implies call_ensures(
                    *f,
                    (xs[j],),
                    #[trigger] ids@[j],
                ) by {
                    if j < i {
                        assert(found@.take(i as int)[j] == xs[j]);
                        assert(before[j] == ids@[j]);
                    }
                }
            }
            i += 1;
        }
        assert(found@.take(i as int) =~= found@);
        self.definition = rewrite(&chars, &ids);
        proof {
            assert(maps_to(*f, references(old(self)@.definition), ids@));
            lemma_references_of_rewritten(chars@, ids@);
        }
    }

    /// The references in the definition: the numbers that follow a `#`
    /// directly, in the order of the text. The id of the entry itself is no part of
    /// its definition and is not among them.
    pub fn get_references(&self) -> (result: Vec<u64>)
        requires
            references_fit(self@.definition),
        ensures
            result@ == references(self@.definition),
    {
        let chars = chars_of(self.definition.as_str());
        scan(&chars)
    }
}

} // verus!
