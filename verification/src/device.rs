//! Where a model computes, and the settings that decide how.

use vstd::prelude::*;

use crate::json;
use crate::json::Json;
use crate::names;
use crate::text;
use crate::text::same;

verus! {

/// A setting that is there.
pub open spec fn given(v: Option<&str>) -> Option<Seq<char>> {
    match v {
        Some(s) => Some(s@),
        None => None,
    }
}

/// Whether the setting is `word`.
pub fn is_set_to(v: Option<&str>, word: &str) -> (r: bool)
    ensures
        r == (given(v) == Some(word@)),
{
    match v {
        Some(s) => same(s, word),
        None => false,
    }
}

/// Whether a setting that is on unless it is `0` is on; `default` says what holds without it.
pub fn switched_on(v: Option<&str>, default: bool) -> (r: bool)
    ensures
        r == (match given(v) {
            Some(s) => s != "0"@,
            None => default,
        }),
{
    match v {
        Some(s) => !same(s, "0"),
        None => default,
    }
}

/// Whether caches keep 8-bit codes: unless the setting is `0`, which keeps single precision.
pub fn kv_int8(v: Option<&str>) -> (r: bool)
    ensures
        r == (given(v) != Some("0"@)),
{
    switched_on(v, true)
}

/// The size that a setting gives, or `default` where it gives none.
pub fn size_or(v: Option<&str>, default: usize) -> (r: usize)
    ensures
        r == (match given(v) {
            Some(s) => match text::parsed_size(s) {
                Some(n) => n,
                None => default,
            },
            None => default,
        }),
{
    match v {
        Some(s) => match text::parse_size(s) {
            Some(n) => n,
            None => default,
        },
        None => default,
    }
}

/// Rows from which on a product is computed in whole numbers; the largest machine word where it
/// never is.
pub open spec fn whole_from(v: Option<Seq<char>>) -> usize {
    match v {
        None => usize::MAX,
        Some(s) => if s == "0"@ {
            usize::MAX
        } else {
            match text::parsed_size(s) {
                Some(n) => n,
                None => 4,
            }
        },
    }
}

/// Rows from which on a product is computed in whole numbers.
pub fn int8_gemm_min(v: Option<&str>) -> (r: usize)
    ensures
        r == whole_from(given(v)),
{
    match v {
        None => usize::MAX,
        Some(s) => if same(s, "0") {
            usize::MAX
        } else {
            match text::parse_size(s) {
                Some(n) => n,
                None => 4,
            }
        },
    }
}

/// The instructions that a machine has.
pub struct Features {
    pub avx2: bool,
    pub fma: bool,
    pub avx: bool,
    pub sse41: bool,
}

/// The level of the instructions that a machine has: two with AVX2 and FMA, one with AVX and
/// SSE4.1, none otherwise.
pub open spec fn level_of(f: Features) -> u8 {
    if f.avx2 && f.fma {
        2
    } else if f.avx && f.sse41 {
        1
    } else {
        0
    }
}

/// The level that a setting asks for, if it is a number that fits a byte.
pub open spec fn asked_level(v: Option<Seq<char>>) -> Option<u64> {
    match v {
        Some(s) => match text::parsed(s) {
            Some(n) => if n <= 255 {
                Some(n)
            } else {
                None
            },
            None => None,
        },
        None => None,
    }
}

/// The level of the instructions to use: the machine's, or a lower one that is asked for.
pub fn simd_level(f: Features, forced: Option<&str>) -> (r: u8)
    ensures
        r == (match asked_level(given(forced)) {
            Some(n) => if n < level_of(f) {
                n
            } else {
                level_of(f) as u64
            },
            None => level_of(f) as u64,
        }),
        r <= level_of(f),
{
    let detected: u8 = if f.avx2 && f.fma {
        2
    } else if f.avx && f.sse41 {
        1
    } else {
        0
    };
    match forced {
        Some(s) => {
            let cs: Vec<char> = text::chars_of(s);
            match text::parse(cs.as_slice()) {
                Some(n) => if n < detected as u64 {
                    n as u8
                } else {
                    detected
                },
                None => detected,
            }
        },
        None => detected,
    }
}

/// How many workers a pool gets: as many as are asked for, or one for every core.
pub fn pool_size(asked: Option<&str>, cores: usize) -> (r: usize)
    ensures
        r == (match given(asked) {
            Some(s) => match text::parsed_size(s) {
                Some(n) => n,
                None => cores,
            },
            None => cores,
        }),
{
    size_or(asked, cores)
}

// ---------------------------------------------------------------------------------------
// CPU or GPU
// ---------------------------------------------------------------------------------------

/// Megabytes of a GPU's memory where nothing is said of it.
pub const GPU_MEM_MB: usize = 2048;

/// The weights take less than half of the GPU's memory.
pub open spec fn fits_gpu(weight_bytes: int, mem_mb: int) -> bool {
    weight_bytes < mem_mb * 1024 * 1024 / 2
}

/// What is to be tried.
#[derive(Debug, Clone, Copy, PartialEq, Eq, Structural)]
pub enum Attempt {
    /// The CPU computes.
    Cpu,
    /// The GPU may compute.
    Gpu,
}

/// Where a model is to compute: `want` is `gpu`, or `auto`, which asks for a GPU that the weights
/// fit, or anything else, which asks for the CPU.
pub open spec fn attempt(want: Seq<char>, fits: bool, supported: bool) -> Attempt {
    if (want == "gpu"@ || (want == "auto"@ && fits)) && supported {
        Attempt::Gpu
    } else {
        Attempt::Cpu
    }
}

/// Where a model of `weight_bytes` is to compute, and whether its weights fit the GPU's memory.
/// `supported` says whether the GPU can compute it at all.
pub fn choose_device(
    want: Option<&str>,
    mem_mb: Option<&str>,
    weight_bytes: usize,
    supported: bool,
) -> (r: (Attempt, bool))
    ensures
        ({
            let mem = match given(mem_mb) {
                Some(s) => match text::parsed_size(s) {
                    Some(n) => n,
                    None => GPU_MEM_MB,
                },
                None => GPU_MEM_MB,
            };
            let word = match given(want) {
                Some(s) => s,
                None => "auto"@,
            };
            &&& r.1 == fits_gpu(weight_bytes as int, mem as int)
            &&& r.0 == attempt(word, r.1, supported)
        }),
{
    let mem: usize = size_or(mem_mb, GPU_MEM_MB);
    let fits: bool = (weight_bytes as u128) < mem as u128 * 1024 * 1024 / 2;
    let word = match want {
        Some(s) => s,
        None => "auto",
    };
    if (same(word, "gpu") || (same(word, "auto") && fits)) && supported {
        (Attempt::Gpu, fits)
    } else {
        (Attempt::Cpu, fits)
    }
}

/// What came of trying to use a GPU.
#[derive(Debug, Clone, Copy, PartialEq, Eq, Structural)]
pub enum Outcome {
    /// The GPU holds the model.
    Ready,
    /// There is no GPU that can be used.
    NoAdapter,
    /// Something went wrong.
    Failed,
}

/// What is done about it.
#[derive(Debug, Clone, Copy, PartialEq, Eq, Structural)]
pub enum Decision {
    UseGpu,
    UseCpu,
    /// A GPU was demanded and none can be used.
    RefuseNoAdapter,
    /// A GPU was demanded and it failed.
    RefuseFailed,
}

/// The model computes somewhere.
pub open spec fn starts(d: Decision) -> bool {
    d is UseGpu || d is UseCpu
}

/// What is done when a GPU was tried, and whether one was demanded.
pub open spec fn decided(demanded: bool, outcome: Outcome) -> Decision {
    match outcome {
        Outcome::Ready => Decision::UseGpu,
        Outcome::NoAdapter => if demanded {
            Decision::RefuseNoAdapter
        } else {
            Decision::UseCpu
        },
        Outcome::Failed => if demanded {
            Decision::RefuseFailed
        } else {
            Decision::UseCpu
        },
    }
}

/// What is done when a GPU was tried: a model falls back to the CPU unless a GPU was demanded, so
/// without such a demand the engine always starts.
pub fn after_attempt(want: Option<&str>, outcome: Outcome) -> (r: Decision)
    ensures
        r == (match outcome {
            Outcome::Ready => Decision::UseGpu,
            Outcome::NoAdapter => if given(want) == Some("gpu"@) {
                Decision::RefuseNoAdapter
            } else {
                Decision::UseCpu
            },
            Outcome::Failed => if given(want) == Some("gpu"@) {
                Decision::RefuseFailed
            } else {
                Decision::UseCpu
            },
        }),
        given(want) != Some("gpu"@) ==> starts(r),
        r == decided(given(want) == Some("gpu"@), outcome),
{
    let demanded: bool = is_set_to(want, "gpu");
    match outcome {
        Outcome::Ready => Decision::UseGpu,
        Outcome::NoAdapter => if demanded {
            Decision::RefuseNoAdapter
        } else {
            Decision::UseCpu
        },
        Outcome::Failed => if demanded {
            Decision::RefuseFailed
        } else {
            Decision::UseCpu
        },
    }
}

/// The adapter computes in software.
pub open spec fn in_software(cpu_type: bool, name: Seq<char>) -> bool {
    ||| cpu_type
    ||| text::found(text::lowered(name), "llvmpipe"@) is Some
    ||| text::found(text::lowered(name), "swiftshader"@) is Some
}

/// An adapter is passed over.
pub open spec fn passed_over(cpu_type: bool, name: Seq<char>, want: Option<Seq<char>>) -> bool {
    in_software(cpu_type, name) && want != Some("gpu"@)
}

/// Whether an adapter is passed over: one that computes in software is slower than the CPU kernels,
/// and is used only where a GPU is demanded.
pub fn ignore_adapter(cpu_type: bool, name: &str, want: Option<&str>) -> (r: bool)
    ensures
        r == (in_software(cpu_type, name@) && given(want) != Some("gpu"@)),
        r == passed_over(cpu_type, name@, given(want)),
{
    let cs: Vec<char> = text::chars_of(name);
    let low: Vec<char> = text::to_lowered(cs.as_slice());
    let pipe: Vec<char> = text::chars_of("llvmpipe");
    let shader: Vec<char> = text::chars_of("swiftshader");
    let software: bool = cpu_type || text::find(low.as_slice(), pipe.as_slice()).is_some()
        || text::find(low.as_slice(), shader.as_slice()).is_some();
    software && !is_set_to(want, "gpu")
}

/// Whether weights in the form `quant` are refused: a GPU is demanded, and it computes with 8-bit
/// codes alone.
pub fn refuse_quant(want: Option<&str>, quant: &str) -> (r: bool)
    ensures
        r == (given(want) == Some("gpu"@) && quant@ != "q8"@),
{
    is_set_to(want, "gpu") && !same(quant, "q8")
}

// ---------------------------------------------------------------------------------------
// Token ids as text
// ---------------------------------------------------------------------------------------

/// The token id that `s` writes.
pub open spec fn id_of(s: Seq<char>) -> Option<u32> {
    match text::parsed(text::trimmed(s)) {
        Some(n) => if n <= u32::MAX {
            Some(n as u32)
        } else {
            None
        },
        None => None,
    }
}

/// The token ids that are written with commas between them; `None` where one is no id.
pub open spec fn ids_of(s: Seq<char>) -> Option<Seq<u32>>
    decreases s.len(),
{
    match text::found(s, seq![',']) {
        None => match id_of(s) {
            Some(n) => Some(seq![n]),
            None => None,
        },
        Some(i) => if 0 <= i < s.len() {
            match (id_of(s.take(i)), ids_of(s.skip(i + 1))) {
                (Some(n), Some(rest)) => Some(seq![n] + rest),
                _ => None,
            }
        } else {
            None
        },
    }
}

/// The token id that `s` writes.
fn parse_id(s: &[char]) -> (r: Option<u32>)
    ensures
        r == id_of(s@),
{
    let t: Vec<char> = text::trim(s);
    match text::parse(t.as_slice()) {
        Some(n) => if n <= u32::MAX as u64 {
            Some(n as u32)
        } else {
            None
        },
        None => None,
    }
}

/// The token ids that are written with commas between them; `None` where one is no id.
pub fn parse_ids(s: &str) -> (r: Option<Vec<u32>>)
    ensures
        match r {
            Some(v) => ids_of(s@) == Some(v@),
            None => ids_of(s@) is None,
        },
{
    let cs: Vec<char> = text::chars_of(s);
    let comma: Vec<char> = vec![','];
    assert(comma@ =~= seq![',']);
    let mut out: Vec<u32> = Vec::new();
    let mut at: usize = 0;
    assert(cs@.skip(0) =~= cs@);
    proof {
        if let Some(rest) = ids_of(cs@) {
            assert(out@ + rest =~= rest);
        }
    }
    loop
        invariant
            cs@ == s@,
            comma@ == seq![','],
            at <= cs@.len(),
            match ids_of(cs@.skip(at as int)) {
                Some(rest) => ids_of(s@) == Some(out@ + rest),
                None => ids_of(s@) is None,
            },
        decreases cs@.len() - at,
    {
        let rest = vstd::slice::slice_subrange(cs.as_slice(), at, cs.len());
        assert(rest@ =~= cs@.skip(at as int));
        match text::find(rest, comma.as_slice()) {
            None => {
                return match parse_id(rest) {
                    Some(n) => {
                        out.push(n);
                        assert(out@ =~= out@.drop_last() + seq![n]);
                        Some(out)
                    },
                    None => None,
                };
            },
            Some(i) => {
                proof {
                    text::lemma_found_stands(rest@, comma@);
                }
                assert(rest.len() == rest@.len());
                let one = vstd::slice::slice_subrange(rest, 0, i);
                assert(one@ =~= rest@.take(i as int));
                match parse_id(one) {
                    Some(n) => {
                        let ghost before = out@;
                        out.push(n);
                        proof {
                            assert(rest@.skip(i + 1) =~= cs@.skip(at + i + 1));
                            if let Some(more) = ids_of(rest@.skip(i + 1)) {
                                assert(before + (seq![n] + more) =~= out@ + more);
                            }
                        }
                        at = at + i + 1;
                    },
                    None => {
                        return None;
                    },
                }
            },
        }
    }
}

/// The token ids in an array, each cut to a token id's width.
pub open spec fn token_ids(a: Seq<json::Tree>) -> Option<Seq<u32>>
    decreases a.len(),
{
    if a.len() == 0 {
        Some(seq![])
    } else {
        match (token_ids(a.drop_last()), a.last()) {
            (Some(front), json::Tree::UInt(u)) => Some(front.push((u % 0x1_0000_0000) as u32)),
            _ => None,
        }
    }
}

/// The token ids under `name`; `None` where there is no array of whole numbers.
pub fn read_tokens(doc: &Json, name: &str) -> (r: Option<Vec<u32>>)
    ensures
        match (r, json::items_of(json::member(doc.tree(), name@))) {
            (Some(v), Some(a)) => token_ids(a) == Some(v@),
            (None, Some(a)) => token_ids(a) is None,
            (r, None) => r is None,
        },
{
    let a = match doc.items(name) {
        Some(a) => a,
        None => {
            return None;
        },
    };
    let ghost t = json::trees(a@);
    proof {
        json::trees_items(a@);
    }
    let mut out: Vec<u32> = Vec::new();
    let mut i: usize = 0;
    while i < a.len()
        invariant
            i <= a@.len(),
            t == json::trees(a@),
            t.len() == a@.len(),
            items_are(t, doc.tree(), name@),
            forall|k: int| 0 <= k < a@.len() ==> #[trigger] t[k] == a@[k].tree(),
            token_ids(t.take(i as int)) == Some(out@),
        decreases a@.len() - i,
    {
        assert(t.take(i + 1).drop_last() =~= t.take(i as int));
        assert(t[i as int] == a@[i as int].tree());
        match a[i].as_uint() {
            Some(u) => {
                out.push((u % 0x1_0000_0000) as u32);
            },
            None => {
                proof {
                    lemma_no_ids(t, i + 1);
                }
                return None;
            },
        }
        i += 1;
    }
    assert(t.take(a@.len() as int) =~= t);
    Some(out)
}

/// The items under `name`.
spec fn items_are(t: Seq<json::Tree>, doc: json::Tree, name: Seq<char>) -> bool {
    json::items_of(json::member(doc, name)) == Some(t)
}

/// What is no list of ids is none with more behind it.
proof fn lemma_no_ids(t: Seq<json::Tree>, n: int)
    requires
        0 <= n <= t.len(),
        token_ids(t.take(n)) is None,
    ensures
        token_ids(t) is None,
    decreases t.len() - n,
{
    if n < t.len() {
        assert(t.take(n + 1).drop_last() =~= t.take(n));
        lemma_no_ids(t, n + 1);
    } else {
        assert(t.take(n) =~= t);
    }
}

// ---------------------------------------------------------------------------------------
// Laws
// ---------------------------------------------------------------------------------------

/// A GPU is tried only for a model that it can compute; it is tried for each such model where it is
/// demanded, and where nothing is demanded for those whose weights take less than half its memory.
pub proof fn gpus_are_tried_where_they_serve(
    want: Seq<char>,
    weight_bytes: nat,
    mem_mb: nat,
    supported: bool,
)
    ensures
        ({
            let tried = attempt(
                want,
                fits_gpu(weight_bytes as int, mem_mb as int),
                supported,
            ) is Gpu;
            &&& tried ==> supported
            &&& want == "gpu"@ ==> tried == supported
            &&& want == "auto"@ && supported ==> (tried <==> 2 * weight_bytes < mem_mb * 1048576)
            &&& want != "gpu"@ && want != "auto"@ ==> !tried
        }),
{
    reveal_strlit("gpu");
    reveal_strlit("auto");
    assert("gpu"@.len() == 3 && "auto"@.len() == 4);
    assert((mem_mb * 1024 * 1024) % 2 == 0);
}

/// Products are computed in whole numbers only where that was asked for: from the number of rows
/// given on, and from four where the setting is no number.
pub proof fn whole_numbers_are_asked_for(v: Option<Seq<char>>, n: usize)
    ensures
        v is None ==> whole_from(v) == usize::MAX,
        v == Some("0"@) ==> whole_from(v) == usize::MAX,
        v matches Some(s) && s != "0"@ && text::parsed_size(s) == Some(n) ==> whole_from(v) == n,
        v matches Some(s) && s != "0"@ && text::parsed_size(s) is None ==> whole_from(v) == 4,
{
}

/// Instructions are used only where the machine has them: the higher level needs AVX2 and FMA, the
/// lower AVX and SSE4.1.
pub proof fn levels_need_their_instructions(f: Features)
    ensures
        level_of(f) <= 2,
        level_of(f) == 2 <==> f.avx2 && f.fma,
        level_of(f) == 1 ==> f.avx && f.sse41,
        f.avx && f.sse41 ==> level_of(f) >= 1,
{
}

/// An adapter that says of itself that it computes in software, under whatever case of letters, is
/// one that does.
pub proof fn software_is_recognised(a: Seq<char>, name: Seq<char>, b: Seq<char>)
    requires
        text::lowered(name) == "llvmpipe"@ || text::lowered(name) == "swiftshader"@,
    ensures
        in_software(false, a + name + b),
        in_software(true, a),
{
    let s = text::lowered(a + name + b);
    let low = text::lowered(name);
    let n = a.len() as int;
    assert(s.subrange(n, n + low.len()) =~= low);
    assert(text::occurs_at(s, low, n));
    lemma_occurs_found(s, low, n);
}

/// What stands somewhere is found.
proof fn lemma_occurs_found(whole: Seq<char>, needle: Seq<char>, i: int)
    requires
        text::occurs_at(whole, needle, i),
    ensures
        text::found(whole, needle) is Some,
    decreases i,
{
    if exists|j: int| 0 <= j < i && text::occurs_at(whole, needle, j) {
        let j = choose|j: int| 0 <= j < i && text::occurs_at(whole, needle, j);
        lemma_occurs_found(whole, needle, j);
    } else {
        assert(text::first_at(whole, needle, i));
        text::lemma_found(whole, needle, i);
    }
}

/// Token ids in decimal, with commas between them.
pub open spec fn written_ids(ids: Seq<u32>) -> Seq<char>
    decreases ids.len(),
{
    if ids.len() == 0 {
        seq![]
    } else if ids.len() == 1 {
        text::decimal(ids[0] as nat)
    } else {
        text::decimal(ids[0] as nat) + seq![','] + written_ids(ids.drop_first())
    }
}

/// Token ids that were written are read back, in order.
#[verifier::spinoff_prover]
#[verifier::rlimit(40)]
pub proof fn written_ids_are_read(ids: Seq<u32>)
    requires
        ids.len() > 0,
    ensures
        ids_of(written_ids(ids)) == Some(ids),
    decreases ids.len(),
{
    let d = text::decimal(ids[0] as nat);
    let s = written_ids(ids);
    let comma = seq![','];
    names::decimal_reads_back(ids[0] as nat);
    names::written_numbers_are_read(ids[0] as u64);
    assert(text::is_digit(d[0]) && text::is_digit(d.last()));
    text::padding_is_trimmed(seq![], d, seq![]);
    assert(Seq::<char>::empty() + d + Seq::<char>::empty() =~= d);
    assert(id_of(d) == Some(ids[0]));
    if ids.len() == 1 {
        assert forall|j: int| !#[trigger] text::occurs_at(s, comma, j) by {
            if text::occurs_at(s, comma, j) {
                assert(s.subrange(j, j + 1)[0] == ',');
                assert(text::is_digit(d[j]));
            }
        }
        text::lemma_not_found(s, comma);
        assert(seq![ids[0]] =~= ids);
    } else {
        let n = d.len() as int;
        let rest = ids.drop_first();
        written_ids_are_read(rest);
        assert(text::first_at(s, comma, n)) by {
            assert(s.subrange(n, n + 1) =~= comma);
            assert forall|j: int| 0 <= j < n implies !#[trigger] text::occurs_at(s, comma, j) by {
                if text::occurs_at(s, comma, j) {
                    assert(s.subrange(j, j + 1)[0] == ',');
                    assert(text::is_digit(d[j]));
                }
            }
        }
        text::lemma_found(s, comma, n);
        assert(s.take(n) =~= d);
        assert(s.skip(n + 1) =~= written_ids(rest));
        assert(seq![ids[0]] + rest =~= ids);
    }
}

/// An array of token ids gives each of them in its place; an item that is no whole number gives none.
pub proof fn listed_ids_are_read(a: Seq<json::Tree>, i: int)
    requires
        0 <= i < a.len(),
    ensures
        match token_ids(a) {
            Some(ids) => ids.len() == a.len() && a[i] is UInt && (a[i]->UInt_0 <= u32::MAX
                ==> a[i] == json::Tree::UInt(ids[i] as u64)),
            None => exists|k: int| 0 <= k < a.len() && !((#[trigger] a[k]) is UInt),
        },
    decreases a.len(),
{
    let front = a.drop_last();
    let n = a.len() - 1;
    if i < n {
        listed_ids_are_read(front, i);
    } else if n > 0 {
        listed_ids_are_read(front, 0);
    }
    if token_ids(a) is None {
        if a[n] is UInt {
            let k = choose|k: int| 0 <= k < front.len() && !((#[trigger] front[k]) is UInt);
            assert(!(a[k] is UInt));
        } else {
            assert(!(a[n] is UInt));
        }
    }
}

/// A GPU that is ready is used; one that was demanded and is not is never replaced by the CPU without
/// a word; and where none was demanded the engine always starts. No adapter is passed over that was
/// demanded or that computes in hardware.
pub proof fn demands_are_kept(
    demanded: bool,
    outcome: Outcome,
    cpu_type: bool,
    name: Seq<char>,
    want: Option<Seq<char>>,
)
    ensures
        outcome is Ready <==> decided(demanded, outcome) is UseGpu,
        demanded && !(outcome is Ready) ==> !starts(decided(demanded, outcome)),
        !demanded ==> starts(decided(demanded, outcome)),
        demanded && outcome is NoAdapter ==> decided(demanded, outcome) is RefuseNoAdapter,
        want == Some("gpu"@) ==> !passed_over(cpu_type, name, want),
        !in_software(cpu_type, name) ==> !passed_over(cpu_type, name, want),
        in_software(cpu_type, name) && want is None ==> passed_over(cpu_type, name, want),
{
}

/// A level that is asked for as a number that fits a byte is understood, and no other.
pub proof fn asked_levels_are_read(n: u64)
    ensures
        n <= 255 ==> asked_level(Some(text::decimal(n as nat))) == Some(n),
        n > 255 ==> asked_level(Some(text::decimal(n as nat))) is None,
        asked_level(None) is None,
{
    names::written_numbers_are_read(n);
}

} // verus!
