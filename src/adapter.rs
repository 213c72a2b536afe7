//! Reading the OpenGL ES / WebGL version out of a driver's version string.
use vstd::prelude::*;
use vstd::string::{StrSliceExecFns, StringSliceAdditionalSpecFns};

verus! {

/// The driver's version string could not be understood.
#[derive(Clone, Copy, Debug, PartialEq, Eq, Structural)]
pub struct InstanceError;

/// A GL adapter.
pub struct Adapter;

/// `pat` stands in `s` from byte `i` on.
pub open spec fn occurs_at(s: Seq<u8>, pat: Seq<u8>, i: int) -> bool {
    0 <= i && i + pat.len() <= s.len() && s.subrange(i, i + pat.len()) == pat
}

/// The first place from `i` on where `pat` stands in `s`.
pub open spec fn find_from(s: Seq<u8>, pat: Seq<u8>, i: nat) -> Option<nat>
    decreases s.len() + 1 - i,
{
    if i > s.len() || i + pat.len() > s.len() {
        None
    } else if occurs_at(s, pat, i as int) {
        Some(i)
    } else {
        find_from(s, pat, i + 1)
    }
}

/// The last place up to `i` where `pat` stands in `s`.
pub open spec fn rfind_from(s: Seq<u8>, pat: Seq<u8>, i: int) -> Option<nat>
    decreases i + 1,
{
    if i < 0 {
        None
    } else if occurs_at(s, pat, i) {
        Some(i as nat)
    } else {
        rfind_from(s, pat, i - 1)
    }
}

/// The first place where `pat` stands in `s`.
pub open spec fn spec_find(s: Seq<u8>, pat: Seq<u8>) -> Option<nat> {
    find_from(s, pat, 0)
}

/// The last place where `pat` stands in `s`.
pub open spec fn spec_rfind(s: Seq<u8>, pat: Seq<u8>) -> Option<nat> {
    rfind_from(s, pat, s.len() - pat.len())
}

/// The bytes of `"WebGL "`.
pub open spec fn webgl_sig() -> Seq<u8> {
    seq![87u8, 101u8, 98u8, 71u8, 76u8, 32u8]
}

/// The bytes of `" ES "`.
pub open spec fn es_sig() -> Seq<u8> {
    seq![32u8, 69u8, 83u8, 32u8]
}

/// The bytes of `"GLSL ES "`.
pub open spec fn glsl_es_sig() -> Seq<u8> {
    seq![71u8, 76u8, 83u8, 76u8, 32u8, 69u8, 83u8, 32u8]
}

pub open spec fn is_digit(b: u8) -> bool {
    48 <= b <= 57
}

/// The number that the decimal digits `s` write.
pub open spec fn digits_value(s: Seq<u8>) -> int
    decreases s.len(),
{
    if s.len() == 0 {
        0
    } else {
        digits_value(s.drop_last()) * 10 + (s.last() - 48)
    }
}

/// `s` without a leading `+`.
pub open spec fn unsigned_digits(s: Seq<u8>) -> Seq<u8> {
    if s.len() > 0 && s[0] == 43 {
        s.subrange(1, s.len() as int)
    } else {
        s
    }
}

/// A `u8` in decimal, as the standard library reads one: an optional `+`, then at least
/// one digit, and a value below 256.
pub open spec fn spec_parse_u8(s: Seq<u8>) -> Option<u8> {
    let d = unsigned_digits(s);
    if d.len() == 0 || exists|i: int| 0 <= i < d.len() && !is_digit(#[trigger] d[i]) {
        None
    } else if digits_value(d) > 255 {
        None
    } else {
        Some(digits_value(d) as u8)
    }
}

/// `s` without its trailing `'0'` bytes.
pub open spec fn trim_trailing_zeros(s: Seq<u8>) -> Seq<u8>
    decreases s.len(),
{
    if s.len() > 0 && s.last() == 48 {
        trim_trailing_zeros(s.drop_last())
    } else {
        s
    }
}

/// The minor version as it is read: `"0"` where it starts with a zero, else without its
/// trailing zeros.
pub open spec fn lenient_minor(m: Seq<u8>) -> Seq<u8> {
    if m.len() > 0 && m[0] == 48 {
        seq![48u8]
    } else {
        trim_trailing_zeros(m)
    }
}

/// `s` up to the first `sep`, or all of `s`.
pub open spec fn before_sep(s: Seq<u8>, sep: u8) -> Seq<u8> {
    match spec_find(s, seq![sep]) {
        Some(i) => s.subrange(0, i as int),
        None => s,
    }
}

/// What follows the version's prefix: after the last `"WebGL "` where the string starts
/// with it, else after the last `" ES "`.
pub open spec fn version_tail(src: Seq<u8>) -> Option<Seq<u8>> {
    if occurs_at(src, webgl_sig(), 0) {
        let pos = match spec_rfind(src, webgl_sig()) {
            Some(p) => p as int,
            None => 0,
        };
        Some(src.subrange(pos + 6, src.len() as int))
    } else {
        match spec_rfind(src, es_sig()) {
            Some(pos) => Some(src.subrange(pos as int + 4, src.len() as int)),
            None => None,
        }
    }
}

/// The major and minor version that a driver's version string gives; a WebGL version
/// (not a shading language one) counts as the OpenGL ES version one above it.
pub open spec fn spec_parse_version(src: Seq<u8>) -> Result<(u8, u8), InstanceError> {
    match version_tail(src) {
        None => Err(InstanceError),
        Some(t) => {
            let is_webgl = occurs_at(src, webgl_sig(), 0);
            let (rest, is_glsl) = match spec_find(t, glsl_es_sig()) {
                Some(p) => (t.subrange(p as int + 8, t.len() as int), true),
                None => (t, false),
            };
            let version = before_sep(rest, 32);
            let major = spec_parse_u8(before_sep(version, 46));
            let minor = match spec_find(version, seq![46u8]) {
                None => None,
                Some(d) => spec_parse_u8(
                    lenient_minor(before_sep(version.subrange(d as int + 1, version.len() as int), 46)),
                ),
            };
            match (major, minor) {
                (Some(a), Some(b)) => if is_webgl && !is_glsl {
                    if a == 255 {
                        Err(InstanceError)
                    } else {
                        Ok(((a + 1) as u8, b))
                    }
                } else {
                    Ok((a, b))
                },
                _ => Err(InstanceError),
            }
        },
    }
}

proof fn lemma_rfind_bounded(s: Seq<u8>, pat: Seq<u8>, i: int)
    ensures
        rfind_from(s, pat, i) matches Some(p) ==> p <= i && occurs_at(s, pat, p as int),
    decreases i + 1,
{
    if i >= 0 && !occurs_at(s, pat, i) {
        lemma_rfind_bounded(s, pat, i - 1);
    }
}

proof fn lemma_find_bounded(s: Seq<u8>, pat: Seq<u8>, i: nat)
    ensures
        find_from(s, pat, i) matches Some(p) ==> occurs_at(s, pat, p as int),
    decreases s.len() + 1 - i,
{
    if !(i > s.len() || i + pat.len() > s.len()) && !occurs_at(s, pat, i as int) {
        lemma_find_bounded(s, pat, i + 1);
    }
}

proof fn lemma_rfind_finds(s: Seq<u8>, pat: Seq<u8>, i: int, j: int)
    requires
        0 <= j <= i,
        occurs_at(s, pat, j),
    ensures
        rfind_from(s, pat, i) matches Some(p) && j <= p <= i,
    decreases i + 1,
{
    if !occurs_at(s, pat, i) && i > j {
        lemma_rfind_finds(s, pat, i - 1, j);
    }
}

fn byte_range(s: &[u8], from: usize, to: usize) -> (r: Vec<u8>)
    requires
        from <= to <= s@.len(),
    ensures
        r@ == s@.subrange(from as int, to as int),
{
    let mut r: Vec<u8> = Vec::new();
    let mut i = from;
    while i < to
        invariant
            from <= i <= to,
            to <= s@.len(),
            r@ == s@.subrange(from as int, i as int),
        decreases to - i,
    {
        r.push(s[i]);
        assert(s@.subrange(from as int, i + 1) == s@.subrange(from as int, i as int).push(
            s@[i as int],
        ));
        i = i + 1;
    }
    r
}

fn matches_at(s: &[u8], pat: &[u8], i: usize) -> (r: bool)
    ensures
        r == occurs_at(s@, pat@, i as int),
{
    let n = s.len();
    if i > n || pat.len() > n - i {
        return false;
    }
    let mut k: usize = 0;
    while k < pat.len()
        invariant
            n == s@.len(),
            k <= pat@.len(),
            i + pat@.len() <= s@.len(),
            forall|j: int| 0 <= j < k ==> s@[i + j] == pat@[j],
        decreases pat@.len() - k,
    {
        if s[i + k] != pat[k] {
            assert(s@.subrange(i as int, i + pat@.len())[k as int] != pat@[k as int]);
            return false;
        }
        k = k + 1;
    }
    assert(s@.subrange(i as int, i + pat@.len()) =~= pat@);
    true
}

fn find(s: &[u8], pat: &[u8]) -> (r: Option<usize>)
    requires
        pat@.len() >= 1,
    ensures
        r == (match spec_find(s@, pat@) {
            Some(i) => Some(i as usize),
            None => None::<usize>,
        }),
        r matches Some(i) ==> i + pat@.len() <= s@.len(),
        spec_find(s@, pat@) matches Some(p) ==> p + pat@.len() <= s@.len(),
{
    proof {
        lemma_find_bounded(s@, pat@, 0);
    }
    let mut i: usize = 0;
    while i < s.len()
        invariant
            i <= s@.len(),
            pat@.len() >= 1,
            find_from(s@, pat@, 0) == find_from(s@, pat@, i as nat),
        decreases s@.len() - i,
    {
        if matches_at(s, pat, i) {
            return Some(i);
        }
        i = i + 1;
    }
    None
}

fn rfind(s: &[u8], pat: &[u8]) -> (r: Option<usize>)
    ensures
        r == (match spec_rfind(s@, pat@) {
            Some(i) => Some(i as usize),
            None => None::<usize>,
        }),
        r matches Some(i) ==> i + pat@.len() <= s@.len(),
        spec_rfind(s@, pat@) matches Some(p) ==> p + pat@.len() <= s@.len(),
{
    proof {
        lemma_rfind_bounded(s@, pat@, s@.len() - pat@.len());
    }
    if pat.len() > s.len() {
        assert(rfind_from(s@, pat@, s@.len() - pat@.len()) is None);
        return None;
    }
    let mut i: usize = s.len() - pat.len();
    loop
        invariant
            i + pat@.len() <= s@.len(),
            spec_rfind(s@, pat@) == rfind_from(s@, pat@, i as int),
        decreases i,
    {
        if matches_at(s, pat, i) {
            return Some(i);
        }
        if i == 0 {
            assert(rfind_from(s@, pat@, -1) is None);
            return None;
        }
        i = i - 1;
    }
}

proof fn lemma_digits_value_grows(s: Seq<u8>, i: int)
    requires
        0 <= i <= s.len(),
        forall|j: int| 0 <= j < s.len() ==> is_digit(#[trigger] s[j]),
    ensures
        0 <= digits_value(s.take(i)) <= digits_value(s),
    decreases s.len() - i,
{
    if i < s.len() {
        lemma_digits_value_grows(s, i + 1);
        assert(s.take(i + 1).drop_last() =~= s.take(i));
        assert(s.take(i + 1)[i] == s[i]);
        assert forall|j: int| 0 <= j < s.take(i).len() implies is_digit(#[trigger] s.take(i)[j]) by {
            assert(s.take(i)[j] == s[j]);
        }
        lemma_digits_nonneg(s.take(i));
    } else {
        assert(s.take(i) =~= s);
        lemma_digits_nonneg(s);
    }
}

proof fn lemma_digits_nonneg(s: Seq<u8>)
    requires
        forall|j: int| 0 <= j < s.len() ==> is_digit(#[trigger] s[j]),
    ensures
        digits_value(s) >= 0,
    decreases s.len(),
{
    if s.len() > 0 {
        lemma_digits_nonneg(s.drop_last());
    }
}

fn parse_u8(s: &[u8]) -> (r: Option<u8>)
    ensures
        r == spec_parse_u8(s@),
{
    let start: usize = if s.len() > 0 && s[0] == 43 {
        1
    } else {
        0
    };
    let ghost d = unsigned_digits(s@);
    assert(d =~= s@.subrange(start as int, s@.len() as int));
    if start == s.len() {
        return None;
    }
    let mut i: usize = start;
    while i < s.len()
        invariant
            start <= i <= s@.len(),
            d == s@.subrange(start as int, s@.len() as int),
            d == unsigned_digits(s@),
            forall|j: int| start <= j < i ==> is_digit(#[trigger] s@[j]),
        decreases s@.len() - i,
    {
        if s[i] < 48 || s[i] > 57 {
            assert(!is_digit(d[i - start]));
            assert(d.len() > 0);
            return None;
        }
        i = i + 1;
    }
    assert forall|j: int| 0 <= j < d.len() implies is_digit(#[trigger] d[j]) by {
        assert(d[j] == s@[start + j]);
    }
    let mut value: u32 = 0;
    let mut i: usize = start;
    while i < s.len()
        invariant
            start <= i <= s@.len(),
            d == s@.subrange(start as int, s@.len() as int),
            d == unsigned_digits(s@),
            forall|j: int| 0 <= j < d.len() ==> is_digit(#[trigger] d[j]),
            value as int == digits_value(d.take(i - start)),
            value <= 255,
        decreases s@.len() - i,
    {
        proof {
            assert(d.take(i - start + 1).drop_last() =~= d.take(i - start));
            assert(d.take(i - start + 1).last() == s@[i as int]);
            assert(is_digit(d[i - start]));
        }
        value = value * 10 + (s[i] - 48) as u32;
        assert(value as int == digits_value(d.take(i - start + 1)));
        if value > 255 {
            proof {
                lemma_digits_value_grows(d, i - start + 1);
                assert(!(exists|q: int| 0 <= q < d.len() && !is_digit(#[trigger] d[q])));
            }
            return None;
        }
        i = i + 1;
    }
    assert(d.take(d.len() as int) =~= d);
    Some(value as u8)
}

fn trim_zeros(s: &[u8]) -> (r: Vec<u8>)
    ensures
        r@ == trim_trailing_zeros(s@),
{
    let mut end = s.len();
    assert(s@.subrange(0, end as int) =~= s@);
    while end > 0 && s[end - 1] == 48
        invariant
            end <= s@.len(),
            trim_trailing_zeros(s@) == trim_trailing_zeros(s@.subrange(0, end as int)),
        decreases end,
    {
        assert(s@.subrange(0, end as int).drop_last() =~= s@.subrange(0, end - 1));
        end = end - 1;
    }
    byte_range(s, 0, end)
}

impl Adapter {
    /// Reads the major and minor version out of a GL or WebGL version string, leniently:
    /// after the last `"WebGL "` (when the string starts with it) or else the last
    /// `" ES "`, an optional `"GLSL ES "`, then `major.minor` up to the first space. A
    /// WebGL version that is not a shading language version counts one major version up.
    pub fn parse_version(src: &str) -> (r: Result<(u8, u8), InstanceError>)
        ensures
            r == spec_parse_version(src.spec_bytes()),
    {
        let s = src.as_bytes();
        let _n = s.len();
        let webgl: Vec<u8> = vec![87u8, 101u8, 98u8, 71u8, 76u8, 32u8];
        let es: Vec<u8> = vec![32u8, 69u8, 83u8, 32u8];
        let glsl_es: Vec<u8> = vec![71u8, 76u8, 83u8, 76u8, 32u8, 69u8, 83u8, 32u8];
        let space: Vec<u8> = vec![32u8];
        let dot: Vec<u8> = vec![46u8];
        assert(webgl@ =~= webgl_sig());
        assert(es@ =~= es_sig());
        assert(glsl_es@ =~= glsl_es_sig());
        assert(space@ =~= seq![32u8]);
        assert(dot@ =~= seq![46u8]);
        let is_webgl = matches_at(s, webgl.as_slice(), 0);
        let tail: Vec<u8> = if is_webgl {
            proof {
                lemma_rfind_finds(s@, webgl_sig(), s@.len() - 6, 0);
            }
            let pos = match rfind(s, webgl.as_slice()) {
                Some(p) => p,
                None => 0,
            };
            byte_range(s, pos + 6, s.len())
        } else {
            match rfind(s, es.as_slice()) {
                Some(pos) => byte_range(s, pos + 4, s.len()),
                None => {
                    return Err(InstanceError);
                },
            }
        };
        assert(version_tail(s@) == Some(tail@));
        let (rest, is_glsl) = match find(tail.as_slice(), glsl_es.as_slice()) {
            Some(p) => (byte_range(tail.as_slice(), p + 8, tail.len()), true),
            None => (tail, false),
        };
        let version = match find(rest.as_slice(), space.as_slice()) {
            Some(i) => byte_range(rest.as_slice(), 0, i),
            None => rest,
        };
        let major_text = match find(version.as_slice(), dot.as_slice()) {
            Some(i) => byte_range(version.as_slice(), 0, i),
            None => byte_range(version.as_slice(), 0, version.len()),
        };
        assert(version@.subrange(0, version@.len() as int) =~= version@);
        let major = parse_u8(major_text.as_slice());
        let minor = match find(version.as_slice(), dot.as_slice()) {
            None => None,
            Some(d) => {
                let after = byte_range(version.as_slice(), d + 1, version.len());
                let piece = match find(after.as_slice(), dot.as_slice()) {
                    Some(e) => byte_range(after.as_slice(), 0, e),
                    None => after,
                };
                let lenient = if piece.len() > 0 && piece[0] == 48 {
                    let zero: Vec<u8> = vec![48u8];
                    assert(zero@ =~= seq![48u8]);
                    zero
                } else {
                    trim_zeros(piece.as_slice())
                };
                parse_u8(lenient.as_slice())
            },
        };
        match (major, minor) {
            (Some(a), Some(b)) => {
                if is_webgl && !is_glsl {
                    if a == 255 {
                        Err(InstanceError)
                    } else {
                        Ok((a + 1, b))
                    }
                } else {
                    Ok((a, b))
                }
            },
            _ => Err(InstanceError),
        }
    }
}

/// The kind of device an adapter drives.
#[derive(Clone, Copy, Debug, PartialEq, Eq, Structural)]
pub enum DeviceType {
    Other,
    IntegratedGpu,
    DiscreteGpu,
    VirtualGpu,
    Cpu,
}

/// The native API behind an adapter.
#[derive(Clone, Copy, Debug, PartialEq, Eq, Structural)]
pub enum Backend {
    Gl,
}

/// What an adapter reports of itself.
pub struct AdapterInfo {
    pub name: String,
    pub vendor: usize,
    pub device: usize,
    pub device_type: DeviceType,
    pub backend: Backend,
}

/// The lowercase form of `s`, as `str::to_lowercase` gives it.
pub uninterp spec fn lower_of(s: Seq<char>) -> Seq<char>;

/// Relies on `str::to_lowercase`: its result depends on the characters alone.
#[verifier::external_body]
fn lowercase(s: &str) -> (r: String)
    ensures
        r@ == lower_of(s@),
{
    s.to_lowercase()
}

/// `n` stands somewhere in `h`.
pub open spec fn has(h: Seq<char>, n: Seq<char>) -> bool {
    exists|i: int| 0 <= i && i + n.len() <= h.len() && #[trigger] h.subrange(i, i + n.len()) == n
}

/// Whether `n` stands somewhere in `h`.
pub fn contains(h: &str, n: &str) -> (r: bool)
    ensures
        r == has(h@, n@),
{
    let hl = h.unicode_len();
    let nl = n.unicode_len();
    if nl > hl {
        assert forall|i: int| 0 <= i && i + n@.len() <= h@.len() implies #[trigger] h@.subrange(
            i,
            i + n@.len(),
        ) != n@ by {}
        return false;
    }
    let mut i: usize = 0;
    while i <= hl - nl
        invariant
            hl == h@.len(),
            nl == n@.len(),
            nl <= hl,
            i <= hl - nl + 1,
            forall|q: int| 0 <= q < i ==> #[trigger] h@.subrange(q, q + n@.len()) != n@,
        decreases hl - nl + 1 - i,
    {
        let mut j: usize = 0;
        let mut same = true;
        while j < nl
            invariant
                hl == h@.len(),
                nl == n@.len(),
                i + nl <= hl,
                j <= nl,
                same == (forall|q: int| 0 <= q < j ==> h@[i + q] == n@[q]),
            decreases nl - j,
        {
            if h.get_char(i + j) != n.get_char(j) {
                same = false;
            }
            j = j + 1;
        }
        if same {
            assert(h@.subrange(i as int, i + n@.len()) =~= n@);
            return true;
        }
        assert(h@.subrange(i as int, i + n@.len()) != n@) by {
            let q = choose|q: int| 0 <= q < nl && h@[i + q] != n@[q];
            assert(h@.subrange(i as int, i + n@.len())[q] == h@[i + q]);
        }
        i = i + 1;
    }
    assert forall|q: int| 0 <= q && q + n@.len() <= h@.len() implies #[trigger] h@.subrange(
        q,
        q + n@.len(),
    ) != n@ by {
        assert(q < i);
    }
    false
}

/// Renderer names of integrated GPUs. `" xpress"` keeps its space so that "express"
/// does not match.
pub open spec fn implies_integrated(renderer: Seq<char>) -> bool {
    ||| has(renderer, " xpress"@)
    ||| has(renderer, "radeon hd 4200"@)
    ||| has(renderer, "radeon hd 4250"@)
    ||| has(renderer, "radeon hd 4290"@)
    ||| has(renderer, "radeon hd 4270"@)
    ||| has(renderer, "radeon hd 4225"@)
    ||| has(renderer, "radeon hd 3100"@)
    ||| has(renderer, "radeon hd 3200"@)
    ||| has(renderer, "radeon hd 3000"@)
    ||| has(renderer, "radeon hd 3300"@)
    ||| has(renderer, "radeon(tm) r4 graphics"@)
    ||| has(renderer, "radeon(tm) r5 graphics"@)
    ||| has(renderer, "radeon(tm) r6 graphics"@)
    ||| has(renderer, "radeon(tm) r7 graphics"@)
    ||| has(renderer, "radeon r7 graphics"@)
    ||| has(renderer, "nforce"@)
    ||| has(renderer, "tegra"@)
    ||| has(renderer, "shield"@)
    ||| has(renderer, "igp"@)
    ||| has(renderer, "mali"@)
    ||| has(renderer, "intel"@)
    ||| has(renderer, "v3d"@)
}

/// Renderer names of software rasterisers.
pub open spec fn implies_cpu(renderer: Seq<char>) -> bool {
    has(renderer, "mesa offscreen"@) || has(renderer, "swiftshader"@) || has(renderer, "llvmpipe"@)
}

/// The device type that lowercase vendor and renderer names suggest.
pub open spec fn spec_device_type(vendor: Seq<char>, renderer: Seq<char>) -> DeviceType {
    if has(vendor, "qualcomm"@) || has(vendor, "intel"@) || implies_integrated(renderer) {
        DeviceType::IntegratedGpu
    } else if implies_cpu(renderer) {
        DeviceType::Cpu
    } else {
        DeviceType::DiscreteGpu
    }
}

/// The PCI vendor id that a lowercase vendor name suggests, or 0.
pub open spec fn spec_vendor_id(vendor: Seq<char>) -> usize {
    if has(vendor, "amd"@) {
        0x1002
    } else if has(vendor, "imgtec"@) {
        0x1010
    } else if has(vendor, "nvidia"@) {
        0x10DE
    } else if has(vendor, "arm"@) {
        0x13B5
    } else if has(vendor, "qualcomm"@) {
        0x5143
    } else if has(vendor, "intel"@) {
        0x8086
    } else if has(vendor, "broadcom"@) {
        0x14e4
    } else {
        0
    }
}

/// The device type that lowercase vendor and renderer names suggest: GL has no way to
/// ask.
pub fn infer_device_type(vendor: &str, renderer: &str) -> (r: DeviceType)
    ensures
        r == spec_device_type(vendor@, renderer@),
{
    let integrated = contains(renderer, " xpress") || contains(renderer, "radeon hd 4200")
        || contains(renderer, "radeon hd 4250") || contains(renderer, "radeon hd 4290")
        || contains(renderer, "radeon hd 4270") || contains(renderer, "radeon hd 4225")
        || contains(renderer, "radeon hd 3100") || contains(renderer, "radeon hd 3200")
        || contains(renderer, "radeon hd 3000") || contains(renderer, "radeon hd 3300")
        || contains(renderer, "radeon(tm) r4 graphics") || contains(
        renderer,
        "radeon(tm) r5 graphics",
    ) || contains(renderer, "radeon(tm) r6 graphics") || contains(
        renderer,
        "radeon(tm) r7 graphics",
    ) || contains(renderer, "radeon r7 graphics") || contains(renderer, "nforce") || contains(
        renderer,
        "tegra",
    ) || contains(renderer, "shield") || contains(renderer, "igp") || contains(renderer, "mali")
        || contains(renderer, "intel") || contains(renderer, "v3d");
    if contains(vendor, "qualcomm") || contains(vendor, "intel") || integrated {
        DeviceType::IntegratedGpu
    } else if contains(renderer, "mesa offscreen") || contains(renderer, "swiftshader")
        || contains(renderer, "llvmpipe") {
        DeviceType::Cpu
    } else {
        DeviceType::DiscreteGpu
    }
}

/// The PCI vendor id that a lowercase vendor name suggests, or 0.
pub fn vendor_id(vendor: &str) -> (r: usize)
    ensures
        r == spec_vendor_id(vendor@),
{
    if contains(vendor, "amd") {
        0x1002
    } else if contains(vendor, "imgtec") {
        0x1010
    } else if contains(vendor, "nvidia") {
        0x10DE
    } else if contains(vendor, "arm") {
        0x13B5
    } else if contains(vendor, "qualcomm") {
        0x5143
    } else if contains(vendor, "intel") {
        0x8086
    } else if contains(vendor, "broadcom") {
        0x14e4
    } else {
        0
    }
}

impl Adapter {
    /// The adapter's description from the driver's vendor and renderer strings: the
    /// renderer string is its name, and the lowercase strings decide its type and vendor.
    pub fn make_info(vendor_orig: String, renderer_orig: String) -> (r: AdapterInfo)
        ensures
            r.name@ == renderer_orig@,
            r.vendor == spec_vendor_id(lower_of(vendor_orig@)),
            r.device == 0,
            r.device_type == spec_device_type(lower_of(vendor_orig@), lower_of(renderer_orig@)),
            r.backend == Backend::Gl,
    {
        let vendor = lowercase(vendor_orig.as_str());
        let renderer = lowercase(renderer_orig.as_str());
        let device_type = infer_device_type(vendor.as_str(), renderer.as_str());
        let vendor_id = vendor_id(vendor.as_str());
        AdapterInfo {
            name: renderer_orig,
            vendor: vendor_id,
            device: 0,
            device_type,
            backend: Backend::Gl,
        }
    }
}

} // verus!
