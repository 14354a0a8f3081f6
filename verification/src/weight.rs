//! A linear layer's weights in whichever form they are kept, their form on disk, and the layouts
//! that a graphics device reads.

use vstd::arithmetic::div_mod::*;
use vstd::prelude::*;
use vstd::slice::*;
use vstd::string::*;

use crate::bytes;
use crate::kernels::{copy_rows, Q4Mat, QMat};
use crate::kv;
use crate::text;

verus! {

/// A form of weights.
#[derive(Debug, Clone, Copy, PartialEq, Eq, Structural)]
pub enum Format {
    Bf16,
    Q8,
    Q4,
}

/// The form that a name stands for; any other name stands for full precision.
pub open spec fn format_of(name: Seq<char>) -> Format {
    if name == "q8"@ {
        Format::Q8
    } else if name == "q4"@ {
        Format::Q4
    } else {
        Format::Bf16
    }
}

/// The name of a form.
pub open spec fn format_name(f: Format) -> Seq<char> {
    match f {
        Format::Bf16 => "bf16"@,
        Format::Q8 => "q8"@,
        Format::Q4 => "q4"@,
    }
}

impl Format {
    /// The form that a name stands for.
    pub fn parse(name: &str) -> (r: Format)
        ensures
            r == format_of(name@),
    {
        if text::same(name, "q8") {
            Format::Q8
        } else if text::same(name, "q4") {
            Format::Q4
        } else {
            Format::Bf16
        }
    }

    /// The name of the form.
    pub fn name(&self) -> (r: &'static str)
        ensures
            r@ == format_name(*self),
    {
        match self {
            Format::Bf16 => "bf16",
            Format::Q8 => "q8",
            Format::Q4 => "q4",
        }
    }
}

/// A form is found again from its name.
pub proof fn names_stand_for_forms(f: Format)
    ensures
        format_of(format_name(f)) == f,
{
    reveal_strlit("bf16");
    reveal_strlit("q8");
    reveal_strlit("q4");
    assert("bf16"@.len() == 4 && "q8"@.len() == 2 && "q4"@.len() == 2);
    assert("q8"@[1] != "q4"@[1]);
}

/// The weights of a linear layer with `n` outputs and `k` inputs.
pub enum Weight {
    Bf16 { w: Vec<u16>, n: usize, k: usize },
    Q8(QMat),
    Q4(Q4Mat),
}

/// What a [`Weight`] holds.
#[allow(inconsistent_fields)]
#[verifier::ext_equal]
pub ghost enum Stored {
    Bf16 { w: Seq<u16>, n: usize, k: usize },
    Q8 { q: Seq<i8>, scales: Seq<u32>, n: usize, k: usize },
    Q4 { q: Seq<u8>, scales: Seq<u32>, n: usize, k: usize },
}

impl Stored {
    /// The form.
    pub open spec fn format(self) -> Format {
        match self {
            Stored::Bf16 { .. } => Format::Bf16,
            Stored::Q8 { .. } => Format::Q8,
            Stored::Q4 { .. } => Format::Q4,
        }
    }

    /// Outputs.
    pub open spec fn rows(self) -> usize {
        match self {
            Stored::Bf16 { w, n, k } => n,
            Stored::Q8 { q, scales, n, k } => n,
            Stored::Q4 { q, scales, n, k } => n,
        }
    }

    /// Inputs.
    pub open spec fn cols(self) -> usize {
        match self {
            Stored::Bf16 { w, n, k } => k,
            Stored::Q8 { q, scales, n, k } => k,
            Stored::Q4 { q, scales, n, k } => k,
        }
    }

    /// Bytes in memory.
    pub open spec fn size(self) -> int {
        match self {
            Stored::Bf16 { w, n, k } => w.len() as int * 2,
            Stored::Q8 { q, scales, n, k } => q.len() as int + scales.len() as int * 4,
            Stored::Q4 { q, scales, n, k } => q.len() as int + scales.len() as int * 4,
        }
    }

    /// The bytes on disk: the codes, then the scales.
    pub open spec fn payload(self) -> Seq<u8> {
        match self {
            Stored::Bf16 { w, n, k } => bytes::raw(w),
            Stored::Q8 { q, scales, n, k } => bytes::raw(q) + bytes::raw(scales),
            Stored::Q4 { q, scales, n, k } => q + bytes::raw(scales),
        }
    }

    /// There is a code for every weight.
    pub open spec fn wf(self) -> bool {
        match self {
            Stored::Bf16 { w, n, k } => true,
            Stored::Q8 { q, scales, n, k } => q.len() == n * k,
            Stored::Q4 { q, scales, n, k } => q.len() == (n * k) / 2,
        }
    }
}

/// The weights that bytes on disk hold, if they can be weights of that form and size.
pub open spec fn restored(f: Format, n: usize, k: usize, b: Seq<u8>) -> Option<Stored> {
    let codes = match f {
        Format::Bf16 => 0,
        Format::Q8 => n * k,
        Format::Q4 => (n * k) / 2,
    };
    let ok = match f {
        Format::Bf16 => b.len() % 2 == 0,
        _ => n * k <= usize::MAX && codes <= b.len() && (b.len() - codes) % 4 == 0,
    };
    if !ok {
        None
    } else {
        match f {
            Format::Bf16 => Some(Stored::Bf16 { w: bytes::values::<u16>(b), n, k }),
            Format::Q8 => Some(
                Stored::Q8 {
                    q: bytes::values::<i8>(b.take(codes)),
                    scales: bytes::values::<u32>(b.skip(codes)),
                    n,
                    k,
                },
            ),
            Format::Q4 => Some(
                Stored::Q4 {
                    q: bytes::values::<u8>(b.take(codes)),
                    scales: bytes::values::<u32>(b.skip(codes)),
                    n,
                    k,
                },
            ),
        }
    }
}

impl Weight {
    /// What the weights are.
    pub open spec fn view(&self) -> Stored {
        match *self {
            Weight::Bf16 { w, n, k } => Stored::Bf16 { w: w@, n, k },
            Weight::Q8(m) => Stored::Q8 { q: m.q@, scales: m.scales@, n: m.n, k: m.k },
            Weight::Q4(m) => Stored::Q4 { q: m.q@, scales: m.scales@, n: m.n, k: m.k },
        }
    }

    /// The form, the size, and the bytes on disk.
    pub fn to_cache(&self) -> (r: (&'static str, usize, usize, Vec<u8>))
        ensures
            r.0@ == format_name(self@.format()),
            r.1 == self@.rows(),
            r.2 == self@.cols(),
            r.3@ == self@.payload(),
    {
        match self {
            Weight::Bf16 { w, n, k } => ("bf16", *n, *k, bytes::write_values(w.as_slice())),
            Weight::Q8(m) => {
                let mut b: Vec<u8> = bytes::write_values(m.q.as_slice());
                let mut s: Vec<u8> = bytes::write_values(m.scales.as_slice());
                b.append(&mut s);
                ("q8", m.n, m.k, b)
            },
            Weight::Q4(m) => {
                let mut b: Vec<u8> = slice_to_vec(m.q.as_slice());
                let mut s: Vec<u8> = bytes::write_values(m.scales.as_slice());
                b.append(&mut s);
                ("q4", m.n, m.k, b)
            },
        }
    }

    /// The weights that bytes on disk hold; `None` where they cannot be weights of that form and
    /// size.
    pub fn from_cache(kind: &str, n: usize, k: usize, b: &[u8]) -> (r: Option<Weight>)
        ensures
            match r {
                Some(w) => restored(format_of(kind@), n, k, b@) == Some(w@),
                None => restored(format_of(kind@), n, k, b@) is None,
            },
    {
        let f: Format = Format::parse(kind);
        if f == Format::Bf16 {
            if b.len() % 2 != 0 {
                return None;
            }
            return Some(Weight::Bf16 { w: copy_rows::<u16>(b, n), n, k });
        }
        let codes: usize = match n.checked_mul(k) {
            Some(c) => if f == Format::Q8 {
                c
            } else {
                c / 2
            },
            None => {
                return None;
            },
        };
        if codes > b.len() || (b.len() - codes) % 4 != 0 {
            return None;
        }
        let front = slice_subrange(b, 0, codes);
        let back = slice_subrange(b, codes, b.len());
        assert(front@ =~= b@.take(codes as int));
        assert(back@ =~= b@.skip(codes as int));
        if f == Format::Q8 {
            Some(Weight::Q8(QMat { n, k, q: copy_rows(front, n), scales: copy_rows(back, n) }))
        } else {
            Some(Weight::Q4(Q4Mat { n, k, q: copy_rows(front, n), scales: copy_rows(back, n) }))
        }
    }

    /// Bytes in memory, up to the largest machine word.
    pub fn bytes(&self) -> (r: usize)
        ensures
            r == kv::capped(self@.size()),
    {
        match self {
            Weight::Bf16 { w, .. } => {
                let n: u128 = w.len() as u128 * 2;
                if n < usize::MAX as u128 {
                    n as usize
                } else {
                    usize::MAX
                }
            },
            Weight::Q8(m) => m.bytes(),
            Weight::Q4(m) => m.bytes(),
        }
    }

    /// Number of weights, up to the largest machine word.
    pub fn params(&self) -> (r: usize)
        ensures
            r == kv::capped(self@.rows() * self@.cols()),
    {
        let (n, k): (usize, usize) = match self {
            Weight::Bf16 { w, n, k } => (*n, *k),
            Weight::Q8(m) => (m.n, m.k),
            Weight::Q4(m) => (m.n, m.k),
        };
        match n.checked_mul(k) {
            Some(p) => p,
            None => usize::MAX,
        }
    }
}

/// Weights that were written to disk are read back as they were.
pub proof fn cached_weights_come_back(w: Stored)
    requires
        w.wf(),
        w.rows() * w.cols() <= usize::MAX,
    ensures
        restored(format_of(format_name(w.format())), w.rows(), w.cols(), w.payload()) == Some(w),
{
    names_stand_for_forms(w.format());
    match w {
        Stored::Bf16 { w: v, n, k } => {
            bytes::lemma_raw_len(v);
            bytes::values_of_raw(v);
        },
        Stored::Q8 { q, scales, n, k } => {
            bytes::lemma_raw_len(q);
            bytes::values_of_raw(q);
            bytes::lemma_raw_len(scales);
            bytes::values_of_raw(scales);
            assert(w.payload().take(n * k) =~= bytes::raw(q));
            assert(w.payload().skip(n * k) =~= bytes::raw(scales));
        },
        Stored::Q4 { q, scales, n, k } => {
            bytes::lemma_raw_len(scales);
            bytes::values_of_raw(scales);
            let c = (n * k) / 2;
            assert(w.payload().take(c) =~= q);
            assert(w.payload().skip(c) =~= bytes::raw(scales));
            assert(bytes::values::<u8>(q) =~= q);
        },
    }
}

/// On disk the codes of a matrix stand first, one for each weight or one for each two, and its scales
/// behind them.
pub proof fn codes_stand_before_scales(q8: Seq<i8>, q4: Seq<u8>, scales: Seq<u32>, n: usize, k: usize)
    requires
        q8.len() == n * k,
        q4.len() == (n * k) / 2,
    ensures
        ({
            let p = (Stored::Q8 { q: q8, scales, n, k }).payload();
            &&& p.len() == n * k + 4 * scales.len()
            &&& bytes::values::<i8>(p.take(n * k)) == q8
            &&& bytes::values::<u32>(p.skip(n * k)) == scales
        }),
        ({
            let p = (Stored::Q4 { q: q4, scales, n, k }).payload();
            &&& p.len() == (n * k) / 2 + 4 * scales.len()
            &&& p.take((n * k) / 2) == q4
            &&& bytes::values::<u32>(p.skip((n * k) / 2)) == scales
        }),
{
    bytes::lemma_raw_len(q8);
    bytes::values_of_raw(q8);
    bytes::lemma_raw_len(scales);
    bytes::values_of_raw(scales);
    let p = (Stored::Q8 { q: q8, scales, n, k }).payload();
    assert(p.take(n * k) =~= bytes::raw(q8));
    assert(p.skip(n * k) =~= bytes::raw(scales));
    let r = (Stored::Q4 { q: q4, scales, n, k }).payload();
    assert(r.take((n * k) / 2) =~= q4);
    assert(r.skip((n * k) / 2) =~= bytes::raw(scales));
}

/// The names of the forms, and what every other name stands for.
pub proof fn forms_have_their_names(name: Seq<char>)
    ensures
        format_of(name) == Format::Q8 <==> name == "q8"@,
        format_of(name) == Format::Q4 <==> name == "q4"@,
        name != "q8"@ && name != "q4"@ ==> format_of(name) == Format::Bf16,
{
    reveal_strlit("q8");
    reveal_strlit("q4");
    assert("q8"@[1] != "q4"@[1]);
}

/// What weights take in memory: two bytes each in full precision; in codes one byte for each, or for
/// each two, and four for each scale.
pub proof fn sizes_count_codes_and_scales(w: Stored)
    ensures
        match w {
            Stored::Bf16 { w: v, n, k } => w.size() == 2 * v.len(),
            Stored::Q8 { q, scales, n, k } => w.size() == q.len() + 4 * scales.len(),
            Stored::Q4 { q, scales, n, k } => w.size() == q.len() + 4 * scales.len(),
        },
        w.size() == w.payload().len(),
{
    match w {
        Stored::Bf16 { w: v, n, k } => {
            bytes::lemma_raw_len(v);
        },
        Stored::Q8 { q, scales, n, k } => {
            bytes::lemma_raw_len(q);
            bytes::lemma_raw_len(scales);
        },
        Stored::Q4 { q, scales, n, k } => {
            bytes::lemma_raw_len(scales);
        },
    }
}

} // verus!
