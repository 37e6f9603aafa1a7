//! Path validation guarding the save/load boundary against traversal.
//!
//! The checks here are the pure string layer: control bytes, traversal
//! segments in raw, percent-encoded and multiply-encoded forms (decoded
//! iteratively a bounded number of times), and absolute paths.  What needs
//! the filesystem - canonicalization and the allow-list of resolved base
//! directories - belongs to the unverified shell around the library, which
//! runs it after these checks accept.
//!
//! The contract is one-sided on purpose: anything accepted is free of
//! control bytes, free of `..` segments and relative.  Rejection happens in
//! strictly more cases (encoded traversal, device prefixes, malformed
//! percent escapes), each named by the error detail.

use vstd::prelude::*;
use crate::errors::RustAnnError;
use vstd::string::StringSliceAdditionalSpecFns;
use vstd::string::StrSliceExecFns;

verus! {

/// A byte below space that is not tab, line feed or carriage return, the
/// delete byte, or a null.
pub open spec fn has_control_byte(b: Seq<u8>) -> bool {
    exists|i: int|
        0 <= i < b.len() && ((#[trigger] b[i]) < 32 && b[i] != 9 && b[i] != 10 && b[i] != 13
            || b[i] == 127)
}

/// Two consecutive dots anywhere.
pub open spec fn has_dotdot(b: Seq<u8>) -> bool {
    exists|i: int| 0 <= i && i + 1 < b.len() && (#[trigger] b[i]) == 46 && b[i + 1] == 46
}

/// A leading slash or backslash.
pub open spec fn is_absolute_bytes(b: Seq<u8>) -> bool {
    b.len() > 0 && (b[0] == 47 || b[0] == 92)
}

/// Whether `needle` sits at position `i` of `hay`.
pub open spec fn run_at(hay: Seq<u8>, needle: Seq<u8>, i: int) -> bool {
    forall|j: int| 0 <= j < needle.len() ==> hay[i + j] == (#[trigger] needle[j])
}

/// Whether `needle` occurs as a contiguous run inside `hay`.
pub open spec fn has_run(hay: Seq<u8>, needle: Seq<u8>) -> bool {
    exists|i: int| 0 <= i && i + needle.len() <= hay.len() && #[trigger] run_at(hay, needle, i)
}

/// Executable scan for a contiguous run.
fn contains_run(hay: &Vec<u8>, needle: &Vec<u8>) -> (r: bool)
    requires
        needle@.len() >= 1,
    ensures
        r == has_run(hay@, needle@),
{
    if needle.len() > hay.len() {
        proof {
            if has_run(hay@, needle@) {
                let i = choose|i: int|
                    0 <= i && i + needle@.len() <= hay@.len() && #[trigger] run_at(
                        hay@,
                        needle@,
                        i,
                    );
            }
        }
        return false;
    }
    let mut i: usize = 0;
    let last = hay.len() - needle.len();
    while i <= last
        invariant
            1 <= needle@.len() <= hay@.len(),
            hay@.len() <= usize::MAX,
            last == hay@.len() - needle@.len(),
            i <= last + 1,
            forall|s: int| 0 <= s < i ==> !(#[trigger] run_at(hay@, needle@, s)),
        decreases last + 1 - i,
    {
        let mut j: usize = 0;
        let mut all = true;
        while j < needle.len()
            invariant
                i + needle@.len() <= hay@.len(),
                hay@.len() <= usize::MAX,
                j <= needle@.len(),
                all == (forall|l: int| 0 <= l < j ==> hay@[i + l] == (#[trigger] needle@[l])),
            decreases needle@.len() - j,
        {
            let same = hay[i + j] == needle[j];
            all = all && same;
            j = j + 1;
        }
        if all {
            assert(run_at(hay@, needle@, i as int));
            assert(has_run(hay@, needle@));
            return true;
        }
        i = i + 1;
    }
    proof {
        if has_run(hay@, needle@) {
            let s = choose|s: int|
                0 <= s && s + needle@.len() <= hay@.len() && #[trigger] run_at(
                    hay@,
                    needle@,
                    s,
                );
            assert(s < i);
        }
    }
    false
}

/// ASCII lowercase of every byte; everything else is untouched.
fn lower_bytes(b: &Vec<u8>) -> (r: Vec<u8>)
    ensures
        r@ == lower_seq(b@),
        r@.len() == b@.len(),
        forall|i: int|
            0 <= i < b@.len() ==> #[trigger] r@[i] == (if 65 <= b@[i] <= 90 {
                (b@[i] + 32) as u8
            } else {
                b@[i]
            }),
{
    let mut out: Vec<u8> = Vec::new();
    let mut i: usize = 0;
    while i < b.len()
        invariant
            i <= b@.len(),
            out@.len() == i,
            forall|j: int|
                0 <= j < i ==> #[trigger] out@[j] == (if 65 <= b@[j] <= 90 {
                    (b@[j] + 32) as u8
                } else {
                    b@[j]
                }),
        decreases b@.len() - i,
    {
        let c = b[i];
        if 65 <= c && c <= 90 {
            out.push(c + 32);
        } else {
            out.push(c);
        }
        i = i + 1;
    }
    proof {
        assert(out@ =~= lower_seq(b@));
    }
    out
}

/// One pass of percent-decoding; `None` on a malformed escape.
fn percent_decode_once(b: &Vec<u8>) -> (r: Option<Vec<u8>>)
    ensures
        r matches Some(d) ==> (d@.len() <= b@.len() && spec_decode(b@, 0) == Some(d@)),
        r is None ==> spec_decode(b@, 0) is None,
{
    let mut out: Vec<u8> = Vec::new();
    let mut i: usize = 0;
    proof {
        let dec = spec_decode(b@, 0);
        if dec is Some {
            assert(out@ + dec->0 =~= dec->0);
        }
    }
    while i < b.len()
        invariant
            i <= b@.len(),
            out@.len() <= i,
            (match spec_decode(b@, i as int) {
                Some(suffix) => spec_decode(b@, 0) == Some(out@ + suffix),
                None => spec_decode(b@, 0) is None,
            }),
        decreases b@.len() - i,
    {
        let c = b[i];
        if c == 37 && b.len() - i > 2 {
            let h1 = hex_val(b[i + 1]);
            let h2 = hex_val(b[i + 2]);
            match (h1, h2) {
                (Some(hi), Some(lo)) => {
                    let ghost pre = out@;
                    out.push(hi * 16 + lo);
                    proof {
                        let dec = spec_decode(b@, i + 3);
                        if dec is Some {
                            let rest = dec->0;
                            assert(spec_decode(b@, i as int) == Some(
                                seq![(hi * 16 + lo) as u8] + rest,
                            ));
                            assert(pre + (seq![(hi * 16 + lo) as u8] + rest) =~= out@ + rest);
                        }
                    }
                    i = i + 3;
                },
                _ => {
                    proof {
                        assert(spec_decode(b@, i as int) is None);
                    }
                    return None;
                },
            }
        } else {
            let ghost pre = out@;
            out.push(c);
            proof {
                let dec = spec_decode(b@, i + 1);
                if dec is Some {
                    let rest = dec->0;
                    assert(spec_decode(b@, i as int) == Some(seq![c] + rest));
                    assert(pre + (seq![c] + rest) =~= out@ + rest);
                }
            }
            i = i + 1;
        }
    }
    proof {
        assert(spec_decode(b@, i as int) == Some(Seq::<u8>::empty()));
        assert(out@ + Seq::<u8>::empty() =~= out@);
    }
    Some(out)
}

/// The value of one hexadecimal digit byte.
fn hex_val(c: u8) -> (r: Option<u8>)
    ensures
        r == spec_hex_val(c),
        r matches Some(v) ==> v < 16,
{
    if 48 <= c && c <= 57 {
        Some(c - 48)
    } else if 97 <= c && c <= 102 {
        Some(c - 97 + 10)
    } else if 65 <= c && c <= 70 {
        Some(c - 65 + 10)
    } else {
        None
    }
}

/// ASCII lowercase of a byte sequence.
pub open spec fn lower_seq(b: Seq<u8>) -> Seq<u8> {
    Seq::new(b.len(), |i: int| if 65 <= b[i] <= 90 { (b[i] + 32) as u8 } else { b[i] })
}

/// The value of one hexadecimal digit byte, as the decoder reads it.
pub open spec fn spec_hex_val(c: u8) -> Option<u8> {
    if 48 <= c <= 57 {
        Some((c - 48) as u8)
    } else if 97 <= c <= 102 {
        Some((c - 97 + 10) as u8)
    } else if 65 <= c <= 70 {
        Some((c - 65 + 10) as u8)
    } else {
        None
    }
}

/// One pass of percent-decoding from position `i` on: `None` on a
/// malformed escape.
pub open spec fn spec_decode(b: Seq<u8>, i: int) -> Option<Seq<u8>>
    decreases (if i < b.len() { b.len() - i } else { 0int }),
{
    if i < 0 || i >= b.len() {
        Some(Seq::empty())
    } else if b[i] == 37 && b.len() - i > 2 {
        match (spec_hex_val(b[i + 1]), spec_hex_val(b[i + 2])) {
            (Some(h), Some(l)) => match spec_decode(b, i + 3) {
                Some(rest) => Some(seq![(h * 16 + l) as u8] + rest),
                None => None,
            },
            _ => None,
        }
    } else {
        match spec_decode(b, i + 1) {
            Some(rest) => Some(seq![b[i]] + rest),
            None => None,
        }
    }
}

/// The refused patterns (all lowercase): a traversal run, the device and
/// system prefixes, and percent-encoded separators and dots through two
/// encoding layers.
pub open spec fn spec_dangerous(lower: Seq<u8>) -> bool {
    ||| has_run(lower, seq![46u8, 46u8])
    ||| has_run(lower, seq![47u8, 101u8, 116u8, 99u8, 47u8])
    ||| has_run(lower, seq![92u8, 119u8, 105u8, 110u8, 100u8, 111u8, 119u8, 115u8, 92u8])
    ||| has_run(lower, seq![99u8, 58u8, 92u8])
    ||| has_run(lower, seq![112u8, 114u8, 111u8, 99u8, 47u8])
    ||| has_run(lower, seq![100u8, 101u8, 118u8, 47u8])
    ||| has_run(lower, seq![37u8, 50u8, 101u8])
    ||| has_run(lower, seq![37u8, 50u8, 102u8])
    ||| has_run(lower, seq![37u8, 53u8, 99u8])
    ||| has_run(lower, seq![37u8, 50u8, 53u8, 50u8, 101u8])
    ||| has_run(lower, seq![37u8, 50u8, 53u8, 50u8, 102u8])
    ||| has_run(lower, seq![37u8, 50u8, 53u8, 53u8, 99u8])
}

/// Whether the iterative decoding loop accepts, starting at this layer:
/// decoding stops clean at a fixed point, fails on a malformed escape, and
/// refuses any layer showing a dangerous pattern.
pub open spec fn spec_layers(cur: Seq<u8>, pass: int) -> bool
    decreases (if pass < 4 { 4 - pass } else { 0int }),
{
    if pass >= 4 {
        true
    } else {
        match spec_decode(cur, 0) {
            None => false,
            Some(d) => if d.len() == cur.len() {
                true
            } else if spec_dangerous(d) {
                false
            } else {
                spec_layers(d, pass + 1)
            },
        }
    }
}

/// Everything the pure string layer demands of an accepted path.
pub open spec fn spec_path_ok(b: Seq<u8>) -> bool {
    &&& !has_control_byte(b)
    &&& !spec_dangerous(lower_seq(b))
    &&& !is_absolute_bytes(b)
    &&& spec_layers(lower_seq(b), 0)
}

/// The traversal and device patterns refused in any decoded layer (the
/// scan expects lowercased bytes).
fn dangerous(lower: &Vec<u8>) -> (r: bool)
    ensures
        r == spec_dangerous(lower@),
{
    if contains_run(lower, &pat_dotdot()) {
        return true;
    }
    if contains_run(lower, &pat_slash_etc()) {
        return true;
    }
    if contains_run(lower, &pat_windows()) {
        return true;
    }
    if contains_run(lower, &pat_cdrive()) {
        return true;
    }
    if contains_run(lower, &pat_proc()) {
        return true;
    }
    if contains_run(lower, &pat_dev()) {
        return true;
    }
    if contains_run(lower, &pat_pct_2e()) {
        return true;
    }
    if contains_run(lower, &pat_pct_2f()) {
        return true;
    }
    if contains_run(lower, &pat_pct_5c()) {
        return true;
    }
    if contains_run(lower, &pat_pct_252e()) {
        return true;
    }
    if contains_run(lower, &pat_pct_252f()) {
        return true;
    }
    if contains_run(lower, &pat_pct_255c()) {
        return true;
    }
    false
}

/// ".." as bytes.
fn pat_dotdot() -> (r: Vec<u8>)
    ensures
        r@ == seq![46u8, 46u8],
{
    let mut v: Vec<u8> = Vec::new();
    v.push(46);
    v.push(46);
    proof {
        assert(v@ =~= seq![46u8, 46u8]);
    }
    v
}

/// "/etc/" as bytes.
fn pat_slash_etc() -> (r: Vec<u8>)
    ensures
        r@ == seq![47u8, 101u8, 116u8, 99u8, 47u8],
{
    let mut v: Vec<u8> = Vec::new();
    v.push(47);
    v.push(101);
    v.push(116);
    v.push(99);
    v.push(47);
    proof {
        assert(v@ =~= seq![47u8, 101u8, 116u8, 99u8, 47u8]);
    }
    v
}

/// The windows directory in separators, as bytes.
fn pat_windows() -> (r: Vec<u8>)
    ensures
        r@ == seq![92u8, 119u8, 105u8, 110u8, 100u8, 111u8, 119u8, 115u8, 92u8],
{
    let mut v: Vec<u8> = Vec::new();
    v.push(92);
    v.push(119);
    v.push(105);
    v.push(110);
    v.push(100);
    v.push(111);
    v.push(119);
    v.push(115);
    v.push(92);
    proof {
        assert(v@ =~= seq![92u8, 119u8, 105u8, 110u8, 100u8, 111u8, 119u8, 115u8, 92u8]);
    }
    v
}

/// "c:\" as bytes.
fn pat_cdrive() -> (r: Vec<u8>)
    ensures
        r@ == seq![99u8, 58u8, 92u8],
{
    let mut v: Vec<u8> = Vec::new();
    v.push(99);
    v.push(58);
    v.push(92);
    proof {
        assert(v@ =~= seq![99u8, 58u8, 92u8]);
    }
    v
}

/// "proc/" as bytes.
fn pat_proc() -> (r: Vec<u8>)
    ensures
        r@ == seq![112u8, 114u8, 111u8, 99u8, 47u8],
{
    let mut v: Vec<u8> = Vec::new();
    v.push(112);
    v.push(114);
    v.push(111);
    v.push(99);
    v.push(47);
    proof {
        assert(v@ =~= seq![112u8, 114u8, 111u8, 99u8, 47u8]);
    }
    v
}

/// "dev/" as bytes.
fn pat_dev() -> (r: Vec<u8>)
    ensures
        r@ == seq![100u8, 101u8, 118u8, 47u8],
{
    let mut v: Vec<u8> = Vec::new();
    v.push(100);
    v.push(101);
    v.push(118);
    v.push(47);
    proof {
        assert(v@ =~= seq![100u8, 101u8, 118u8, 47u8]);
    }
    v
}

/// An encoded dot, as bytes.
fn pat_pct_2e() -> (r: Vec<u8>)
    ensures
        r@ == seq![37u8, 50u8, 101u8],
{
    let mut v: Vec<u8> = Vec::new();
    v.push(37);
    v.push(50);
    v.push(101);
    proof {
        assert(v@ =~= seq![37u8, 50u8, 101u8]);
    }
    v
}

/// An encoded slash, as bytes.
fn pat_pct_2f() -> (r: Vec<u8>)
    ensures
        r@ == seq![37u8, 50u8, 102u8],
{
    let mut v: Vec<u8> = Vec::new();
    v.push(37);
    v.push(50);
    v.push(102);
    proof {
        assert(v@ =~= seq![37u8, 50u8, 102u8]);
    }
    v
}

/// An encoded backslash, as bytes.
fn pat_pct_5c() -> (r: Vec<u8>)
    ensures
        r@ == seq![37u8, 53u8, 99u8],
{
    let mut v: Vec<u8> = Vec::new();
    v.push(37);
    v.push(53);
    v.push(99);
    proof {
        assert(v@ =~= seq![37u8, 53u8, 99u8]);
    }
    v
}

/// A doubly encoded dot, as bytes.
fn pat_pct_252e() -> (r: Vec<u8>)
    ensures
        r@ == seq![37u8, 50u8, 53u8, 50u8, 101u8],
{
    let mut v: Vec<u8> = Vec::new();
    v.push(37);
    v.push(50);
    v.push(53);
    v.push(50);
    v.push(101);
    proof {
        assert(v@ =~= seq![37u8, 50u8, 53u8, 50u8, 101u8]);
    }
    v
}

/// A doubly encoded slash, as bytes.
fn pat_pct_252f() -> (r: Vec<u8>)
    ensures
        r@ == seq![37u8, 50u8, 53u8, 50u8, 102u8],
{
    let mut v: Vec<u8> = Vec::new();
    v.push(37);
    v.push(50);
    v.push(53);
    v.push(50);
    v.push(102);
    proof {
        assert(v@ =~= seq![37u8, 50u8, 53u8, 50u8, 102u8]);
    }
    v
}

/// A doubly encoded backslash, as bytes.
fn pat_pct_255c() -> (r: Vec<u8>)
    ensures
        r@ == seq![37u8, 50u8, 53u8, 53u8, 99u8],
{
    let mut v: Vec<u8> = Vec::new();
    v.push(37);
    v.push(50);
    v.push(53);
    v.push(53);
    v.push(99);
    proof {
        assert(v@ =~= seq![37u8, 50u8, 53u8, 53u8, 99u8]);
    }
    v
}

/// Validate a path against traversal: pure string checks.
///
/// Accepts exactly the paths of `spec_path_ok`: no control or null byte,
/// no dangerous pattern in the lowercased bytes, not absolute, and clean
/// through up to four percent-decoding layers.  Anything accepted in
/// particular holds no `..` run.  What needs the filesystem -
/// canonicalization and the allow-list of resolved base directories -
/// belongs to the unverified shell, which runs it after these checks
/// accept.
pub fn validate_path_secure(path: &str) -> (r: Result<String, RustAnnError>)
    ensures
        r is Ok <==> spec_path_ok(path.spec_bytes()),
        r is Ok ==> !has_control_byte(path.spec_bytes()) && !has_dotdot(path.spec_bytes())
            && !is_absolute_bytes(path.spec_bytes()),
        r matches Ok(p) ==> p@ == path@,
        r matches Err(e) ==> e is InvalidPath,
{
    let bytes = path.as_bytes_vec();
    let mut i: usize = 0;
    while i < bytes.len()
        invariant
            bytes@ == path.spec_bytes(),
            i <= bytes@.len(),
            forall|j: int|
                0 <= j < i ==> !((#[trigger] bytes@[j]) < 32 && bytes@[j] != 9 && bytes@[j]
                    != 10 && bytes@[j] != 13 || bytes@[j] == 127),
        decreases bytes@.len() - i,
    {
        let c = bytes[i];
        if c < 32 && c != 9 && c != 10 && c != 13 || c == 127 {
            assert(has_control_byte(bytes@));
            return Err(RustAnnError::InvalidPath(
                "the path contains a control byte".to_string(),
            ));
        }
        i = i + 1;
    }
    proof {
        if has_control_byte(bytes@) {
            let j = choose|j: int|
                0 <= j < bytes@.len() && ((#[trigger] bytes@[j]) < 32 && bytes@[j] != 9
                    && bytes@[j] != 10 && bytes@[j] != 13 || bytes@[j] == 127);
        }
    }
    let lower = lower_bytes(&bytes);
    if dangerous(&lower) {
        return Err(RustAnnError::InvalidPath(
            "the path contains a traversal or device pattern".to_string(),
        ));
    }
    proof {
        // dots are untouched by lowercasing, so the original is clean too
        if has_dotdot(bytes@) {
            let i2 = choose|i2: int|
                0 <= i2 && i2 + 1 < bytes@.len() && (#[trigger] bytes@[i2]) == 46
                    && bytes@[i2 + 1] == 46;
            assert(bytes@[i2] == 46 && bytes@[i2 + 1] == 46);
            assert(lower@[i2] == bytes@[i2]);
            assert(lower@[i2 + 1] == bytes@[i2 + 1]);
            assert(has_dotdot(lower@));
            assert(run_at(lower@, seq![46u8, 46u8], i2));
            assert(has_run(lower@, seq![46u8, 46u8]));
        }
    }
    if bytes.len() > 0 {
        let c0 = bytes[0];
        if c0 == 47 || c0 == 92 {
            return Err(RustAnnError::InvalidPath("absolute paths are refused".to_string()));
        }
    }
    // decode up to four layers to catch nested encodings
    let mut cur = lower;
    let mut pass: usize = 0;
    while pass < 4
        invariant
            pass <= 4,
            bytes@ == path.spec_bytes(),
            spec_layers(lower_seq(bytes@), 0) == spec_layers(cur@, pass as int),
        decreases 4 - pass,
    {
        match percent_decode_once(&cur) {
            Some(decoded) => {
                if decoded.len() == cur.len() {
                    proof {
                        assert(spec_layers(cur@, pass as int));
                    }
                    pass = 4;
                } else {
                    if dangerous(&decoded) {
                        proof {
                            assert(!spec_layers(cur@, pass as int));
                        }
                        return Err(RustAnnError::InvalidPath(
                            "the path decodes to a traversal pattern".to_string(),
                        ));
                    }
                    proof {
                        assert(spec_layers(cur@, pass as int) == spec_layers(
                            decoded@,
                            pass + 1,
                        ));
                    }
                    cur = decoded;
                    pass = pass + 1;
                }
            },
            None => {
                proof {
                    assert(!spec_layers(cur@, pass as int));
                }
                return Err(RustAnnError::InvalidPath(
                    "the path holds a malformed percent escape".to_string(),
                ));
            },
        }
    }
    proof {
        assert(spec_layers(cur@, pass as int));
        assert(spec_path_ok(bytes@));
    }
    Ok(path.to_string())
}

/// Validate a path, reporting failure as a plain message.
pub fn validate_path(path: &str) -> (r: Result<String, &'static str>)
    ensures
        r is Ok <==> spec_path_ok(path.spec_bytes()),
        r is Ok ==> !has_control_byte(path.spec_bytes()) && !has_dotdot(path.spec_bytes())
            && !is_absolute_bytes(path.spec_bytes()),
        r matches Ok(p) ==> p@ == path@,
{
    match validate_path_secure(path) {
        Ok(p) => Ok(p),
        Err(_) => Err("Path validation failed"),
    }
}

} // verus!
