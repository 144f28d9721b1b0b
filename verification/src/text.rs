//! Text as bytes: the name that a label holds, decimal digits, and appending.

use vstd::prelude::*;
use vstd::slice::slice_to_vec;
use vstd::string::StringSliceAdditionalSpecFns;
use vstd::utf8::valid_utf8;
use crate::anchor::{written_label, LABEL_LENGTH};

verus! {

/// Length of `label` without the zero bytes at its end.
pub open spec fn trimmed_len(label: Seq<u8>) -> nat
    decreases label.len(),
{
    if label.len() == 0 {
        0
    } else if label.last() != 0 {
        label.len()
    } else {
        trimmed_len(label.drop_last())
    }
}

/// The name that a label holds: its bytes up to the zero padding.
pub open spec fn label_name(label: Seq<u8>) -> Seq<u8> {
    label.take(trimmed_len(label) as int)
}

/// The text that stands for a label: the name it holds where that is
/// well-formed UTF-8, and the words `invalid name` where it is not.
pub open spec fn label_text(label: Seq<u8>) -> Seq<u8> {
    if valid_utf8(label_name(label)) {
        label_name(label)
    } else {
        "invalid name".spec_bytes()
    }
}

proof fn lemma_trimmed_len(label: Seq<u8>, k: int)
    requires
        0 <= k <= label.len(),
        k == 0 || label[k - 1] != 0,
        forall|j: int| k <= j < label.len() ==> label[j] == 0,
    ensures
        trimmed_len(label) == k,
    decreases label.len() - k,
{
    if k < label.len() {
        lemma_trimmed_len(label.drop_last(), k);
    }
}

/// A label into which a name was written holds that name, clipped to the
/// label's width, whatever the label held before, provided that what was
/// written does not end in a zero byte.
pub proof fn law_label_holds_the_name(label: Seq<u8>, name: Seq<u8>)
    requires
        label.len() == LABEL_LENGTH,
        name.len() <= LABEL_LENGTH ==> name.len() == 0 || name.last() != 0,
        name.len() > LABEL_LENGTH ==> name[LABEL_LENGTH - 1] != 0,
    ensures
        label_name(written_label(label, name)) == if name.len() <= LABEL_LENGTH {
            name
        } else {
            name.take(LABEL_LENGTH as int)
        },
{
    let written = written_label(label, name);
    let k: int = if name.len() <= LABEL_LENGTH {
        name.len() as int
    } else {
        LABEL_LENGTH as int
    };
    lemma_trimmed_len(written, k);
    assert(written.take(k) =~= name.take(k));
    if name.len() <= LABEL_LENGTH {
        assert(name.take(k) =~= name);
    }
}

/// The decimal digits of `n`, as ASCII.
pub open spec fn decimal(n: nat) -> Seq<u8>
    decreases n,
{
    if n < 10 {
        seq![(48 + n) as u8]
    } else {
        decimal(n / 10).push((48 + n % 10) as u8)
    }
}

/// `core::str::from_utf8`: says whether the bytes are accepted, which they
/// are exactly when they are well-formed UTF-8.
#[verifier::external_body]
pub(crate) fn is_utf8(bytes: &[u8]) -> (valid: bool)
    ensures
        valid == valid_utf8(bytes@),
{
    core::str::from_utf8(bytes).is_ok()
}

/// Appends `bytes` to `out`.
pub fn append_bytes(out: &mut Vec<u8>, bytes: &[u8])
    ensures
        final(out)@ == old(out)@ + bytes@,
{
    let mut i: usize = 0;
    while i < bytes.len()
        invariant
            i <= bytes.len(),
            out@ == old(out)@ + bytes@.take(i as int),
        decreases bytes.len() - i,
    {
        out.push(bytes[i]);
        proof {
            assert(bytes@.take(i + 1) =~= bytes@.take(i as int).push(bytes@[i as int]));
            assert(out@ =~= old(out)@ + bytes@.take(i + 1));
        }
        i += 1;
    }
    proof {
        assert(bytes@.take(i as int) =~= bytes@);
    }
}

/// Appends the decimal digits of `n` to `out`.
pub fn append_decimal(out: &mut Vec<u8>, n: u64)
    ensures
        final(out)@ == old(out)@ + decimal(n as nat),
    decreases n,
{
    if n >= 10 {
        append_decimal(out, n / 10);
    }
    let digit: u8 = (n % 10) as u8;
    out.push(48 + digit);
    proof {
        assert(out@ =~= old(out)@ + decimal(n as nat));
    }
}

/// The name that `label` holds, or the words that stand for one that cannot
/// be shown.
pub fn label_display(label: &[u8]) -> (text: Vec<u8>)
    ensures
        text@ == label_text(label@),
{
    let mut n: usize = label.len();
    proof {
        assert(label@.take(n as int) =~= label@);
    }
    while n > 0 && label[n - 1] == 0
        invariant
            n <= label.len(),
            trimmed_len(label@) == trimmed_len(label@.take(n as int)),
        decreases n,
    {
        proof {
            assert(label@.take(n as int).drop_last() =~= label@.take(n - 1));
        }
        n -= 1;
    }
    let mut name: Vec<u8> = Vec::new();
    let mut i: usize = 0;
    while i < n
        invariant
            i <= n <= label.len(),
            name@ == label@.take(i as int),
        decreases n - i,
    {
        name.push(label[i]);
        proof {
            assert(name@ =~= label@.take(i + 1));
        }
        i += 1;
    }
    if is_utf8(name.as_slice()) {
        name
    } else {
        slice_to_vec("invalid name".as_bytes())
    }
}

} // verus!
