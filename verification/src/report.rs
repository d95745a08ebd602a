//! What the worker says: phase markers, error texts and the last line of a failed
//! run.

use vstd::prelude::*;

use crate::error::WorkerError;
use crate::weights::{decimal, digits};

verus! {

/// The phases of a run, in their order.
#[derive(Clone, Copy, PartialEq, Eq, Structural, Debug)]
pub enum Phase {
    Validate,
    Provider,
    InferenceStart,
    InferenceDone,
    ResultWritten,
}

impl Phase {
    /// The name of the phase.
    pub open spec fn spec_name(self) -> &'static str {
        match self {
            Phase::Validate => "validate",
            Phase::Provider => "provider",
            Phase::InferenceStart => "inference_start",
            Phase::InferenceDone => "inference_done",
            Phase::ResultWritten => "result_written",
        }
    }

    /// The place of the phase in a run.
    pub open spec fn place(self) -> int {
        match self {
            Phase::Validate => 0,
            Phase::Provider => 1,
            Phase::InferenceStart => 2,
            Phase::InferenceDone => 3,
            Phase::ResultWritten => 4,
        }
    }

    /// The phase after this one, `None` after the last.
    pub fn next(self) -> (r: Option<Phase>)
        ensures
            match r {
                Some(p) => p.place() == self.place() + 1,
                None => self == Phase::ResultWritten,
            },
    {
        match self {
            Phase::Validate => Some(Phase::Provider),
            Phase::Provider => Some(Phase::InferenceStart),
            Phase::InferenceStart => Some(Phase::InferenceDone),
            Phase::InferenceDone => Some(Phase::ResultWritten),
            Phase::ResultWritten => None,
        }
    }

    /// The line that marks the phase.
    pub fn marker(self) -> (r: String)
        ensures
            r@ == "[LAMA_MARKER] phase "@ + self.spec_name()@,
    {
        let mut line = String::from_str("[LAMA_MARKER] phase ");
        match self {
            Phase::Validate => line.append("validate"),
            Phase::Provider => line.append("provider"),
            Phase::InferenceStart => line.append("inference_start"),
            Phase::InferenceDone => line.append("inference_done"),
            Phase::ResultWritten => line.append("result_written"),
        }
        line
    }
}

/// A character counts as white space: the code points with the Unicode property
/// `White_Space`.
pub open spec fn is_space(c: char) -> bool {
    let n = c as u32;
    ||| 0x09 <= n <= 0x0d
    ||| n == 0x20
    ||| n == 0x85
    ||| n == 0xa0
    ||| n == 0x1680
    ||| 0x2000 <= n <= 0x200a
    ||| n == 0x2028
    ||| n == 0x2029
    ||| n == 0x202f
    ||| n == 0x205f
    ||| n == 0x3000
}

/// Decides whether a character counts as white space.
fn space(c: char) -> (r: bool)
    ensures
        r == is_space(c),
{
    let n: u32 = c as u32;
    (0x09 <= n && n <= 0x0d) || n == 0x20 || n == 0x85 || n == 0xa0 || n == 0x1680 || (0x2000 <= n
        && n <= 0x200a) || n == 0x2028 || n == 0x2029 || n == 0x202f || n == 0x205f || n == 0x3000
}

/// A text with every run of white space as one blank, and none at its ends.
pub open spec fn collapsed(s: Seq<char>) -> Seq<char>
    decreases s.len(),
{
    if s.len() == 0 {
        s
    } else {
        let rest = collapsed(s.drop_last());
        if is_space(s.last()) {
            rest
        } else if rest.len() > 0 && is_space(s[s.len() - 2]) {
            rest.push(' ').push(s.last())
        } else {
            rest.push(s.last())
        }
    }
}

/// The bytes that a character takes in UTF-8.
pub open spec fn char_bytes(c: char) -> nat {
    let n = c as u32;
    if n < 0x80 {
        1
    } else if n < 0x800 {
        2
    } else if n < 0x1_0000 {
        3
    } else {
        4
    }
}

/// The bytes that a text takes in UTF-8.
pub open spec fn text_bytes(s: Seq<char>) -> nat
    decreases s.len(),
{
    if s.len() == 0 {
        0
    } else {
        text_bytes(s.drop_last()) + char_bytes(s.last())
    }
}

/// The number of leading characters that fit in `room` bytes.
pub open spec fn fitting(s: Seq<char>, room: nat) -> nat
    decreases s.len(),
{
    if text_bytes(s) <= room {
        s.len()
    } else {
        fitting(s.drop_last(), room)
    }
}

/// The longest message in bytes.
pub const MAX_MESSAGE: usize = 500;

/// What is kept of a longer one, in bytes.
pub const KEPT_MESSAGE: usize = 497;

/// A message cut to the longest one: as many leading characters as fit in what is
/// kept, and three dots.
pub open spec fn shortened(s: Seq<char>) -> Seq<char> {
    if text_bytes(s) > MAX_MESSAGE {
        s.take(fitting(s, KEPT_MESSAGE as nat) as int) + "..."@
    } else {
        s
    }
}

/// The message that a run ends with: the error on one line or, where nothing is
/// left of it, the plain text, shortened.
pub open spec fn final_message(chain: Seq<char>, plain: Seq<char>) -> Seq<char> {
    shortened(
        if collapsed(chain).len() > 0 {
            collapsed(chain)
        } else {
            plain
        },
    )
}

/// `String::from_iter` over characters: the text of the characters.
#[verifier::external_body]
pub(crate) fn text_of(chars: &Vec<char>) -> (r: String)
    ensures
        r@ == chars@,
{
    chars.iter().collect()
}

/// The characters of a text.
fn chars_of(s: &str) -> (r: Vec<char>)
    ensures
        r@ == s@,
{
    let n: usize = s.unicode_len();
    let mut v: Vec<char> = Vec::new();
    let mut i: usize = 0;
    while i < n
        invariant
            i <= n,
            n == s@.len(),
            v@ == s@.take(i as int),
        decreases n - i,
    {
        v.push(s.get_char(i));
        assert(s@.take(i + 1) =~= s@.take(i as int).push(s@[i as int]));
        i = i + 1;
    }
    assert(s@.take(i as int) =~= s@);
    v
}

/// Collapses the white space of a text.
fn collapse(v: &Vec<char>) -> (r: Vec<char>)
    ensures
        r@ == collapsed(v@),
{
    let mut out: Vec<char> = Vec::new();
    let mut i: usize = 0;
    while i < v.len()
        invariant
            i <= v@.len(),
            out@ == collapsed(v@.take(i as int)),
        decreases v.len() - i,
    {
        let c: char = v[i];
        proof {
            let t = v@.take(i + 1);
            assert(t.drop_last() =~= v@.take(i as int));
            assert(t.last() == c);
            if i > 0 {
                assert(t[t.len() - 2] == v@[i - 1]);
            } else {
                assert(collapsed(v@.take(0)).len() == 0);
            }
        }
        if !space(c) {
            if out.len() > 0 && space(v[i - 1]) {
                out.push(' ');
            }
            out.push(c);
        }
        i = i + 1;
    }
    assert(v@.take(i as int) =~= v@);
    out
}

/// The bytes of a character.
fn width_of(c: char) -> (r: u128)
    ensures
        r == char_bytes(c),
{
    let n: u32 = c as u32;
    if n < 0x80 {
        1
    } else if n < 0x800 {
        2
    } else if n < 0x1_0000 {
        3
    } else {
        4
    }
}

/// Cuts a message to the longest one.
fn shorten(v: Vec<char>) -> (r: Vec<char>)
    ensures
        r@ == shortened(v@),
{
    let n: usize = v.len();
    let mut bytes: u128 = 0;
    let mut i: usize = 0;
    while i < n
        invariant
            i <= n,
            n == v@.len(),
            bytes == text_bytes(v@.take(i as int)),
            bytes <= 4 * i,
        decreases n - i,
    {
        proof {
            assert(v@.take(i + 1).drop_last() =~= v@.take(i as int));
        }
        bytes = bytes + width_of(v[i]);
        i = i + 1;
    }
    assert(v@.take(i as int) =~= v@);
    if bytes <= MAX_MESSAGE as u128 {
        return v;
    }
    let mut k: usize = n;
    while bytes > KEPT_MESSAGE as u128
        invariant
            k <= n,
            n == v@.len(),
            bytes == text_bytes(v@.take(k as int)),
            fitting(v@, KEPT_MESSAGE as nat) == fitting(v@.take(k as int), KEPT_MESSAGE as nat),
        decreases k,
    {
        proof {
            if k == 0 {
                assert(text_bytes(v@.take(0)) == 0);
            }
            assert(v@.take(k as int).drop_last() =~= v@.take(k - 1));
        }
        k = k - 1;
        bytes = bytes - width_of(v[k]);
    }
    let mut out: Vec<char> = Vec::new();
    let mut j: usize = 0;
    while j < k
        invariant
            j <= k <= n,
            n == v@.len(),
            out@ == v@.take(j as int),
        decreases k - j,
    {
        out.push(v[j]);
        assert(v@.take(j + 1) =~= v@.take(j as int).push(v@[j as int]));
        j = j + 1;
    }
    out.push('.');
    out.push('.');
    out.push('.');
    proof {
        reveal_strlit("...");
        assert(out@ =~= v@.take(k as int) + "..."@);
    }
    out
}

/// The last line of a failed run. `chain` is the error with its causes and `plain`
/// the error alone.
pub fn error_line(chain: &str, plain: &str) -> (r: String)
    ensures
        r@ == "ERROR: "@ + final_message(chain@, plain@),
{
    let line = collapse(&chars_of(chain));
    let message = if line.len() > 0 {
        shorten(line)
    } else {
        shorten(chars_of(plain))
    };
    let mut out = String::from_str("ERROR: ");
    let rest = text_of(&message);
    out.append(rest.as_str());
    out
}

/// Numbers in brackets, with commas between them.
pub open spec fn list_text(v: Seq<usize>) -> Seq<char> {
    "["@ + items_text(v) + "]"@
}

/// Numbers with commas between them.
pub open spec fn items_text(v: Seq<usize>) -> Seq<char>
    decreases v.len(),
{
    if v.len() == 0 {
        Seq::empty()
    } else if v.len() == 1 {
        decimal(v[0] as nat)
    } else {
        items_text(v.drop_last()) + ", "@ + decimal(v.last() as nat)
    }
}

/// Numbers in brackets, with commas between them.
fn list_of(v: &Vec<usize>) -> (r: String)
    ensures
        r@ == list_text(v@),
{
    let mut out = String::from_str("[");
    let mut i: usize = 0;
    assert(out@ =~= "["@ + items_text(v@.take(0)));
    while i < v.len()
        invariant
            i <= v@.len(),
            out@ == "["@ + items_text(v@.take(i as int)),
        decreases v.len() - i,
    {
        let ghost before = out@;
        if i > 0 {
            out.append(", ");
        }
        let item = digits(v[i]);
        out.append(item.as_str());
        proof {
            let t = v@.take(i + 1);
            assert(t.drop_last() =~= v@.take(i as int));
            assert(out@ =~= "["@ + items_text(t));
        }
        i = i + 1;
    }
    assert(v@.take(i as int) =~= v@);
    out.append("]");
    out
}

/// `candle_core::Error` as text. Its words are its own.
#[verifier::external_body]
fn candle_text(e: &candle_core::Error) -> (r: String) {
    e.to_string()
}

impl WorkerError {
    /// The text of an error of the library's own.
    pub open spec fn text(self) -> Option<Seq<char>> {
        match self {
            WorkerError::Candle(_) => None,
            WorkerError::Rank { expected, shape } => Some(
                "unexpected rank, expected: "@ + decimal(expected as nat) + ", got: "@ + decimal(
                    shape@.len(),
                ) + " ("@ + list_text(shape@) + ")"@,
            ),
            WorkerError::TooLarge => Some("size exceeds memory"@),
            WorkerError::NotAnImage => Some("not an image of 32-bit floats"@),
            WorkerError::DegenerateWidth => Some("irfft2: degenerate width"@),
            WorkerError::OddChannels => Some("odd number of spectral channels"@),
            WorkerError::PadTooLarge => Some("reflection exceeds the tensor"@),
            WorkerError::KernelTooLarge => Some("kernel exceeds the tensor"@),
            WorkerError::DroppedBranch => Some("resnet block dropped a branch"@),
            WorkerError::NoInitBranch => Some("init produced no local branch"@),
            WorkerError::DroppedLocal => Some("downsample dropped local branch"@),
            WorkerError::NoGlobalBranch => Some("no global branch before resnet blocks"@),
            WorkerError::EmptyMask => Some("empty mask"@),
            WorkerError::ZeroDimension => Some("image dimensions must be nonzero"@),
            WorkerError::DimensionsDiffer { width, height, mask_width, mask_height } => Some(
                "image/mask dimensions differ: "@ + decimal(width as nat) + "x"@ + decimal(
                    height as nat,
                ) + " vs "@ + decimal(mask_width as nat) + "x"@ + decimal(mask_height as nat),
            ),
            WorkerError::BufferLength => Some("pixel buffer has the wrong length"@),
            WorkerError::InputCount(n) => Some(
                "expected exactly 2 ORT inputs, got "@ + decimal(n as nat),
            ),
            WorkerError::NoOutputs => Some("ORT session has no outputs"@),
            WorkerError::OutputShape(v) => Some("unexpected ORT output shape "@ + list_text(v@)),
            WorkerError::TensorShape(v) => Some("unexpected tensor shape "@ + list_text(v@)),
            WorkerError::Session(s) => Some(s@),
        }
    }

    /// The error as text.
    pub fn message(&self) -> (r: String)
        ensures
            self.text() matches Some(t) ==> r@ == t,
    {
        match self {
            WorkerError::Candle(e) => candle_text(e),
            WorkerError::Rank { expected, shape } => {
                let mut out = String::from_str("unexpected rank, expected: ");
                let (a, b) = (digits(*expected), digits(shape.len()));
                let c = list_of(shape);
                out.append(a.as_str());
                out.append(", got: ");
                out.append(b.as_str());
                out.append(" (");
                out.append(c.as_str());
                out.append(")");
                out
            },
            WorkerError::TooLarge => String::from_str("size exceeds memory"),
            WorkerError::NotAnImage => String::from_str("not an image of 32-bit floats"),
            WorkerError::DegenerateWidth => String::from_str("irfft2: degenerate width"),
            WorkerError::OddChannels => String::from_str("odd number of spectral channels"),
            WorkerError::PadTooLarge => String::from_str("reflection exceeds the tensor"),
            WorkerError::KernelTooLarge => String::from_str("kernel exceeds the tensor"),
            WorkerError::DroppedBranch => String::from_str("resnet block dropped a branch"),
            WorkerError::NoInitBranch => String::from_str("init produced no local branch"),
            WorkerError::DroppedLocal => String::from_str("downsample dropped local branch"),
            WorkerError::NoGlobalBranch => String::from_str(
                "no global branch before resnet blocks",
            ),
            WorkerError::EmptyMask => String::from_str("empty mask"),
            WorkerError::ZeroDimension => String::from_str("image dimensions must be nonzero"),
            WorkerError::DimensionsDiffer { width, height, mask_width, mask_height } => {
                let mut out = String::from_str("image/mask dimensions differ: ");
                let (a, b) = (digits(*width), digits(*height));
                let (c, d) = (digits(*mask_width), digits(*mask_height));
                out.append(a.as_str());
                out.append("x");
                out.append(b.as_str());
                out.append(" vs ");
                out.append(c.as_str());
                out.append("x");
                out.append(d.as_str());
                out
            },
            WorkerError::BufferLength => String::from_str("pixel buffer has the wrong length"),
            WorkerError::InputCount(n) => {
                let mut out = String::from_str("expected exactly 2 ORT inputs, got ");
                let a = digits(*n);
                out.append(a.as_str());
                out
            },
            WorkerError::NoOutputs => String::from_str("ORT session has no outputs"),
            WorkerError::OutputShape(v) => {
                let mut out = String::from_str("unexpected ORT output shape ");
                let a = list_of(v);
                out.append(a.as_str());
                out
            },
            WorkerError::TensorShape(v) => {
                let mut out = String::from_str("unexpected tensor shape ");
                let a = list_of(v);
                out.append(a.as_str());
                out
            },
            WorkerError::Session(s) => s.clone(),
        }
    }
}

} // verus!
