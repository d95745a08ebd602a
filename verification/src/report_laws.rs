//! Laws of what the worker reports: its phases, its error lines and its messages.

use vstd::prelude::*;
use vstd::utf8::{encode_scalar, encode_utf8};

use crate::error::WorkerError;
use crate::report::{
    char_bytes, collapsed, error_line, fitting, is_space, items_text, list_text, text_bytes, Phase,
};
use crate::weights::decimal;

verus! {

/// The phases of a run: it is validated, finds its provider, starts to infer, has inferred
/// and has written its result. Each is reported under its own name.
pub proof fn law_phases_follow_one_another(p: Phase, n: Option<Phase>, m: String)
    requires
        call_ensures(Phase::next, (p,), n),
        call_ensures(Phase::marker, (p,), m),
    ensures
        p is Validate ==> n == Some(Phase::Provider) && m@ == "[LAMA_MARKER] phase "@
            + "validate"@,
        p is Provider ==> n == Some(Phase::InferenceStart) && m@ == "[LAMA_MARKER] phase "@
            + "provider"@,
        p is InferenceStart ==> n == Some(Phase::InferenceDone) && m@ == "[LAMA_MARKER] phase "@
            + "inference_start"@,
        p is InferenceDone ==> n == Some(Phase::ResultWritten) && m@ == "[LAMA_MARKER] phase "@
            + "inference_done"@,
        p is ResultWritten ==> n is None && m@ == "[LAMA_MARKER] phase "@ + "result_written"@,
{
}

/// The bytes counted of a text are those of its UTF-8 encoding.
pub proof fn law_text_is_counted_in_utf8(s: Seq<char>)
    ensures
        text_bytes(s) == encode_utf8(s).len(),
    decreases s.len(),
{
    if s.len() > 0 {
        law_text_is_counted_in_utf8(s.drop_first());
        let first = seq![s[0]];
        assert(first.drop_last() =~= Seq::<char>::empty());
        assert(text_bytes(first.drop_last()) == 0);
        assert(text_bytes(first) == char_bytes(s[0]));
        assert(first + s.drop_first() =~= s);
        lemma_bytes_add_up(first, s.drop_first());
        vstd::utf8::char_is_scalar(s[0]);
        assert(char_bytes(s[0]) == encode_scalar(s[0] as u32).len());
    }
}

proof fn lemma_bytes_add_up(a: Seq<char>, b: Seq<char>)
    ensures
        text_bytes(a + b) == text_bytes(a) + text_bytes(b),
    decreases b.len(),
{
    if b.len() == 0 {
        assert(a + b =~= a);
    } else {
        lemma_bytes_add_up(a, b.drop_last());
        assert((a + b).drop_last() =~= a + b.drop_last());
    }
}

/// An error line is "ERROR: " and a message of at most 500 bytes: the collapsed chain of
/// causes, or the plain text where that is empty. A longer one is cut after as many
/// characters as fit into 497 bytes, and three dots follow.
pub proof fn law_error_line_is_cut_to_fit(
    chain: &str,
    plain: &str,
    whole: Seq<char>,
    r: String,
)
    requires
        call_ensures(error_line, (chain, plain), r),
        collapsed(chain@).len() > 0 ==> whole == collapsed(chain@),
        collapsed(chain@).len() == 0 ==> whole == plain@,
    ensures
        encode_utf8(whole).len() <= 500 ==> r@ == "ERROR: "@ + whole,
        encode_utf8(whole).len() > 500 ==> exists|n: int|
            {
                &&& 0 <= n < whole.len()
                &&& r@ == "ERROR: "@ + (#[trigger] whole.take(n) + "..."@)
                &&& encode_utf8(whole.take(n)).len() <= 497
                &&& encode_utf8(whole.take(n + 1)).len() > 497
            },
{
    law_text_is_counted_in_utf8(whole);
    if encode_utf8(whole).len() > 500 {
        let n = fitting(whole, 497) as int;
        lemma_fitting_is_longest(whole, 497);
        law_text_is_counted_in_utf8(whole.take(n));
        law_text_is_counted_in_utf8(whole.take(n + 1));
        assert(r@ == "ERROR: "@ + (whole.take(n) + "..."@));
    }
}

proof fn lemma_fitting_is_longest(s: Seq<char>, room: nat)
    ensures
        fitting(s, room) <= s.len(),
        text_bytes(s.take(fitting(s, room) as int)) <= room,
        text_bytes(s) > room ==> fitting(s, room) < s.len() && text_bytes(
            s.take(fitting(s, room) as int + 1),
        ) > room,
    decreases s.len(),
{
    if text_bytes(s) <= room {
        assert(s.take(s.len() as int) =~= s);
    } else {
        let t = s.drop_last();
        lemma_fitting_is_longest(t, room);
        let n = fitting(t, room) as int;
        assert(t.take(n) =~= s.take(n));
        if text_bytes(t) > room {
            assert(t.take(n + 1) =~= s.take(n + 1));
        } else {
            assert(s.take(n + 1) =~= s);
        }
    }
}

/// White space, by code point.
pub proof fn law_white_space_is_unicode_s(c: char)
    ensures
        is_space(c) <==> (c == ' ' || '\t' <= c <= '\r' || c == '\u{85}' || c == '\u{a0}' || c
            == '\u{1680}' || '\u{2000}' <= c <= '\u{200a}' || c == '\u{2028}' || c == '\u{2029}'
            || c == '\u{202f}' || c == '\u{205f}' || c == '\u{3000}'),
{
}

/// Which white space stands between two parts of a text, and how much of it, makes no
/// difference, and none before or after it counts.
pub proof fn law_collapsing_takes_any_space_for_one(a: Seq<char>, v: char, w: char, b: Seq<char>)
    requires
        is_space(v),
        is_space(w),
    ensures
        collapsed(a.push(v) + b) == collapsed(a.push(w) + b),
        collapsed(a.push(v).push(w) + b) == collapsed(a.push(v) + b),
        collapsed(seq![v] + b) == collapsed(b),
        collapsed(a.push(v)) == collapsed(a),
    decreases b.len(),
{
    let one = a.push(v);
    let other = a.push(w);
    let two = one.push(w);
    let lead = seq![v];
    assert(one.drop_last() =~= a);
    assert(other.drop_last() =~= a);
    assert(two.drop_last() =~= one);
    if b.len() == 0 {
        assert(one + b =~= one);
        assert(other + b =~= other);
        assert(two + b =~= two);
        assert(lead + b =~= lead);
        assert(lead.drop_last() =~= b);
    } else {
        let t = b.drop_last();
        law_collapsing_takes_any_space_for_one(a, v, w, t);
        assert((one + b).drop_last() =~= one + t);
        assert((other + b).drop_last() =~= other + t);
        assert((two + b).drop_last() =~= two + t);
        assert((lead + b).drop_last() =~= lead + t);
        if t.len() == 0 {
            assert(lead + t =~= lead);
            assert(lead.drop_last() =~= Seq::<char>::empty());
            assert(collapsed(lead) == collapsed(lead.drop_last()));
            assert(collapsed(t).len() == 0);
        }
    }
}

/// A text that is one line already, with single blanks between its words, is kept.
pub proof fn law_collapsing_keeps_one_line(s: Seq<char>)
    requires
        s.len() > 0 ==> !is_space(s.first()) && !is_space(s.last()),
        forall|i: int| 0 <= i < s.len() && is_space(#[trigger] s[i]) ==> s[i] == ' ',
        forall|i: int| 0 < i < s.len() && is_space(#[trigger] s[i]) ==> !is_space(s[i - 1]),
    ensures
        collapsed(s) == s,
{
    lemma_single_blanks(s);
}

proof fn lemma_single_blanks(s: Seq<char>)
    requires
        s.len() > 0 ==> !is_space(s.first()),
        forall|i: int| 0 <= i < s.len() && is_space(#[trigger] s[i]) ==> s[i] == ' ',
        forall|i: int| 0 < i < s.len() && is_space(#[trigger] s[i]) ==> !is_space(s[i - 1]),
    ensures
        s.len() > 0 && is_space(s.last()) ==> collapsed(s) == s.drop_last(),
        s.len() > 0 && !is_space(s.last()) ==> collapsed(s) == s,
        s.len() == 0 ==> collapsed(s) == s,
    decreases s.len(),
{
    if s.len() > 0 {
        let t = s.drop_last();
        assert forall|i: int| 0 < i < t.len() && is_space(#[trigger] t[i]) implies !is_space(
            t[i - 1],
        ) by {
            assert(is_space(s[i]));
        }
        lemma_single_blanks(t);
        assert(t.push(s.last()) =~= s);
        if t.len() > 0 && is_space(t.last()) {
            assert(s[s.len() - 2] == ' ');
            assert(is_space(s[s.len() - 2]));
            assert(t.drop_last().push(' ') =~= t);
            assert(t.drop_last().len() > 0) by {
                if t.len() == 1 {
                    assert(t.last() == s.first());
                }
            }
        }
    }
}

/// A list of numbers is written between brackets, in decimal, with a comma and a blank
/// between one and the next.
pub proof fn law_lists_are_written_in_brackets(v: Seq<usize>, n: usize)
    ensures
        list_text(v) == "["@ + items_text(v) + "]"@,
        items_text(Seq::<usize>::empty()).len() == 0,
        items_text(seq![n]) == decimal(n as nat),
        v.len() > 0 ==> items_text(v.push(n)) == items_text(v) + ", "@ + decimal(n as nat),
{
    assert(v.push(n).drop_last() =~= v);
}

/// The messages that name numbers name them in decimal, in the order that they were given.
pub proof fn law_messages_name_their_numbers(
    w: usize,
    h: usize,
    mw: usize,
    mh: usize,
    v: Vec<usize>,
    size: String,
    inputs: String,
    output: String,
    tensor: String,
    rank: String,
)
    requires
        call_ensures(
            WorkerError::message,
            (&(WorkerError::DimensionsDiffer {
                width: w,
                height: h,
                mask_width: mw,
                mask_height: mh,
            }),),
            size,
        ),
        call_ensures(WorkerError::message, (&WorkerError::InputCount(w),), inputs),
        call_ensures(WorkerError::message, (&WorkerError::OutputShape(v),), output),
        call_ensures(WorkerError::message, (&WorkerError::TensorShape(v),), tensor),
        call_ensures(
            WorkerError::message,
            (&(WorkerError::Rank { expected: w, shape: v }),),
            rank,
        ),
    ensures
        size@ == "image/mask dimensions differ: "@ + decimal(w as nat) + "x"@ + decimal(h as nat)
            + " vs "@ + decimal(mw as nat) + "x"@ + decimal(mh as nat),
        inputs@ == "expected exactly 2 ORT inputs, got "@ + decimal(w as nat),
        output@ == "unexpected ORT output shape "@ + ("["@ + items_text(v@) + "]"@),
        tensor@ == "unexpected tensor shape "@ + ("["@ + items_text(v@) + "]"@),
        rank@ == "unexpected rank, expected: "@ + decimal(w as nat) + ", got: "@ + decimal(
            v@.len(),
        ) + " ("@ + ("["@ + items_text(v@) + "]"@) + ")"@,
{
}

} // verus!
