//! The index-assignment engine.
//!
//! Destination files are named `NNNN-<stem>.bin`, where `NNNN` is a
//! decimal index zero-padded to at least four digits. Given the list of
//! names already present in the destination directory and a batch of
//! input paths, the engine maps every input to an output name: an input
//! whose stem already owns a numbered file reuses that exact name, and
//! every other input receives a freshly allocated index, strictly above
//! the highest index present before the run and never repeated within
//! the run.
//!
//! File names are handled as byte strings, as the operating system
//! stores them.

use vstd::prelude::*;
use rand::seq::SliceRandom;

verus! {

/// ASCII `-`.
pub const HYPHEN: u8 = 45;

/// ASCII `.`.
pub const DOT: u8 = 46;

/// ASCII `/`.
pub const SLASH: u8 = 47;

/// ASCII `0`.
pub const ZERO: u8 = 48;

/// Whether a byte is an ASCII decimal digit.
pub open spec fn is_digit(b: u8) -> bool {
    ZERO <= b && b <= 57
}

/// Length of the run of decimal digits at the start of `s`.
pub open spec fn digit_count(s: Seq<u8>) -> nat
    decreases s.len(),
{
    if s.len() == 0 || !is_digit(s[0]) {
        0
    } else {
        1 + digit_count(s.skip(1))
    }
}

/// Numeric value of a sequence of decimal digit bytes.
pub open spec fn digits_value(s: Seq<u8>) -> nat
    recommends
        forall|i: int| 0 <= i < s.len() ==> is_digit(s[i]),
    decreases s.len(),
{
    if s.len() == 0 {
        0
    } else {
        digits_value(s.drop_last()) * 10 + (s.last() - ZERO) as nat
    }
}

/// The index carried by a destination name: the value of its leading
/// run of digits. A name with no leading digit, or whose leading number
/// does not fit in a `u32`, carries no index.
pub open spec fn leading_index_of(s: Seq<u8>) -> Option<u32> {
    let k = digit_count(s) as int;
    if k == 0 {
        Option::None
    } else if digits_value(s.take(k)) > u32::MAX {
        Option::None
    } else {
        Option::Some(digits_value(s.take(k)) as u32)
    }
}

/// The highest index carried by any destination name, 0 if none.
pub open spec fn last_index_of(dest: Seq<Seq<u8>>) -> u32
    decreases dest.len(),
{
    if dest.len() == 0 {
        0
    } else {
        let rest = last_index_of(dest.drop_last());
        match leading_index_of(dest.last()) {
            Option::Some(v) => if v > rest { v } else { rest },
            Option::None => rest,
        }
    }
}

/// If the first `k` bytes of `s` are digits and byte `k` (if any) is
/// not, then the leading digit run has length exactly `k`.
pub proof fn lemma_digit_count(s: Seq<u8>, k: int)
    requires
        0 <= k <= s.len(),
        forall|j: int| 0 <= j < k ==> is_digit(s[j]),
        k == s.len() || !is_digit(s[k]),
    ensures
        digit_count(s) == k,
    decreases k,
{
    if k == 0 {
    } else {
        assert(is_digit(s[0]));
        lemma_digit_count(s.skip(1), k - 1);
    }
}

/// Appending digits never makes the value smaller.
pub proof fn lemma_digits_value_prefix_le(s: Seq<u8>, i: int, j: int)
    requires
        0 <= i <= j <= s.len(),
    ensures
        digits_value(s.take(i)) <= digits_value(s.take(j)),
    decreases j - i,
{
    if i < j {
        lemma_digits_value_prefix_le(s, i, j - 1);
        assert(s.take(j).drop_last() =~= s.take(j - 1));
        assert(digits_value(s.take(j)) == digits_value(s.take(j - 1)) * 10 + (s.take(j).last() - ZERO) as nat);
    }
}

/// Reads the index carried by a destination name: the value of its
/// leading run of decimal digits, if there is one and it fits a `u32`.
pub fn leading_index(name: &Vec<u8>) -> (r: Option<u32>)
    ensures
        r == leading_index_of(name@),
{
    let n = name.len();
    let mut k: usize = 0;
    while k < n && ZERO <= name[k] && name[k] <= 57
        invariant
            0 <= k <= n,
            n == name@.len(),
            forall|j: int| 0 <= j < k ==> is_digit(name@[j]),
        decreases n - k,
    {
        k = k + 1;
    }
    proof {
        lemma_digit_count(name@, k as int);
    }
    if k == 0 {
        return Option::None;
    }
    let mut acc: u32 = 0;
    let mut j: usize = 0;
    while j < k
        invariant
            0 <= j <= k <= n,
            1 <= k,
            n == name@.len(),
            k == digit_count(name@),
            forall|t: int| 0 <= t < k ==> is_digit(name@[t]),
            acc == digits_value(name@.take(j as int)),
            digits_value(name@.take(j as int)) <= u32::MAX,
        decreases k - j,
    {
        let d = (name[j] - ZERO) as u32;
        proof {
            assert(name@.take(j + 1).drop_last() =~= name@.take(j as int));
            assert(name@.take(j + 1).last() == name@[j as int]);
        }
        let shifted = match acc.checked_mul(10) {
            Option::Some(v) => v,
            Option::None => {
                proof {
                    lemma_digits_value_prefix_le(name@, j + 1, k as int);
                }
                return Option::None;
            },
        };
        acc = match shifted.checked_add(d) {
            Option::Some(v) => v,
            Option::None => {
                proof {
                    lemma_digits_value_prefix_le(name@, j + 1, k as int);
                }
                return Option::None;
            },
        };
        j = j + 1;
    }
    Option::Some(acc)
}

/// Finds the highest index carried by any of the destination names.
pub fn last_index(dest: &Vec<Vec<u8>>) -> (r: u32)
    ensures
        r == last_index_of(names_seq(dest@)),
{
    let mut best: u32 = 0;
    let mut i: usize = 0;
    while i < dest.len()
        invariant
            0 <= i <= dest@.len(),
            best == last_index_of(names_seq(dest@).take(i as int)),
        decreases dest@.len() - i,
    {
        proof {
            assert(names_seq(dest@).take(i + 1).drop_last() =~= names_seq(dest@).take(i as int));
            assert(names_seq(dest@).take(i + 1).last() == dest@[i as int]@);
        }
        match leading_index(&dest[i]) {
            Option::Some(v) => {
                if v > best {
                    best = v;
                }
            },
            Option::None => {},
        }
        i = i + 1;
    }
    proof {
        assert(names_seq(dest@).take(dest@.len() as int) =~= names_seq(dest@));
    }
    best
}

/// The byte strings held by a vector of names.
pub open spec fn names_seq(v: Seq<Vec<u8>>) -> Seq<Seq<u8>> {
    v.map_values(|x: Vec<u8>| x@)
}

/// The bytes of the `.bin` extension.
pub open spec fn bin_suffix() -> Seq<u8> {
    seq![DOT, 98u8, 105u8, 110u8]
}

/// Whether a destination name belongs to an input with the given stem:
/// a non-empty run of decimal digits, a hyphen, the exact stem, and a
/// `.bin` extension.
pub open spec fn matches_stem(name: Seq<u8>, stem: Seq<u8>) -> bool {
    let k = digit_count(name) as int;
    &&& k >= 1
    &&& name.len() == k + 1 + stem.len() + 4
    &&& name[k] == HYPHEN
    &&& name.subrange(k + 1, k + 1 + stem.len()) == stem
    &&& name.subrange(k + 1 + stem.len(), name.len() as int) == bin_suffix()
}

/// The first destination name that belongs to the given stem, if any.
pub open spec fn first_match(dest: Seq<Seq<u8>>, stem: Seq<u8>) -> Option<Seq<u8>>
    decreases dest.len(),
{
    if dest.len() == 0 {
        Option::None
    } else if matches_stem(dest[0], stem) {
        Option::Some(dest[0])
    } else {
        first_match(dest.skip(1), stem)
    }
}

/// Position of the last occurrence of `b` in `s`, if any.
pub open spec fn rfind(s: Seq<u8>, b: u8) -> Option<int>
    decreases s.len(),
{
    if s.len() == 0 {
        Option::None
    } else if s.last() == b {
        Option::Some(s.len() - 1)
    } else {
        rfind(s.drop_last(), b)
    }
}

/// The file-name component of a path: the bytes after the last slash.
pub open spec fn file_name_of(p: Seq<u8>) -> Seq<u8> {
    match rfind(p, SLASH) {
        Option::Some(i) => p.skip(i + 1),
        Option::None => p,
    }
}

/// The stem of an input path: its file name without the extension.
/// A path with an empty file name, or whose file name is `.` or `..`,
/// has no stem. A file name whose only dot is its first byte is its
/// own stem.
pub open spec fn stem_of(p: Seq<u8>) -> Option<Seq<u8>> {
    let f = file_name_of(p);
    if f.len() == 0 || f == seq![DOT] || f == seq![DOT, DOT] {
        Option::None
    } else {
        match rfind(f, DOT) {
            Option::Some(i) => if i > 0 {
                Option::Some(f.take(i))
            } else {
                Option::Some(f)
            },
            Option::None => Option::Some(f),
        }
    }
}

/// If `s[i]` is `b` and nothing after it is, the last occurrence is `i`.
pub proof fn lemma_rfind_at(s: Seq<u8>, b: u8, i: int)
    requires
        0 <= i < s.len(),
        s[i] == b,
        forall|j: int| i < j < s.len() ==> s[j] != b,
    ensures
        rfind(s, b) == Option::Some(i),
    decreases s.len(),
{
    if i == s.len() - 1 {
    } else {
        lemma_rfind_at(s.drop_last(), b, i);
    }
}

/// If `b` occurs nowhere in `s`, there is no last occurrence.
pub proof fn lemma_rfind_none(s: Seq<u8>, b: u8)
    requires
        forall|j: int| 0 <= j < s.len() ==> s[j] != b,
    ensures
        rfind(s, b) == Option::<int>::None,
    decreases s.len(),
{
    if s.len() > 0 {
        lemma_rfind_none(s.drop_last(), b);
    }
}

/// Whether a destination name belongs to an input with the given stem.
pub fn name_matches_stem(name: &Vec<u8>, stem: &Vec<u8>) -> (r: bool)
    ensures
        r == matches_stem(name@, stem@),
{
    let n = name.len();
    let mut k: usize = 0;
    while k < n && ZERO <= name[k] && name[k] <= 57
        invariant
            0 <= k <= n,
            n == name@.len(),
            forall|j: int| 0 <= j < k ==> is_digit(name@[j]),
        decreases n - k,
    {
        k = k + 1;
    }
    proof {
        lemma_digit_count(name@, k as int);
    }
    if k == 0 {
        return false;
    }
    let tail_len = match stem.len().checked_add(5) {
        Option::Some(t) => t,
        Option::None => {
            return false;
        },
    };
    if n - k != tail_len {
        return false;
    }
    if name[k] != HYPHEN {
        return false;
    }
    let mut j: usize = 0;
    while j < stem.len()
        invariant
            0 <= j <= stem@.len(),
            k + 1 + stem@.len() + 4 == name@.len(),
            name@.len() <= usize::MAX,
            forall|t: int| 0 <= t < j ==> name@[k + 1 + t] == stem@[t],
        decreases stem@.len() - j,
    {
        if name[k + 1 + j] != stem[j] {
            return false;
        }
        j = j + 1;
    }
    let e = k + 1 + stem.len();
    if name[e] != DOT || name[e + 1] != 98 || name[e + 2] != 105 || name[e + 3] != 110 {
        return false;
    }
    proof {
        assert(name@.subrange(k + 1, k + 1 + stem@.len()) =~= stem@);
        assert(name@.subrange(k + 1 + stem@.len(), name@.len() as int) =~= bin_suffix());
    }
    true
}

/// If no name before position `i` matches, the first match among all of
/// `dest` is the first match from `i` on.
pub proof fn lemma_first_match_skip(dest: Seq<Seq<u8>>, stem: Seq<u8>, i: int)
    requires
        0 <= i <= dest.len(),
        forall|j: int| 0 <= j < i ==> !matches_stem(dest[j], stem),
    ensures
        first_match(dest, stem) == first_match(dest.skip(i), stem),
    decreases i,
{
    if i > 0 {
        lemma_first_match_skip(dest, stem, i - 1);
        assert(dest.skip(i - 1).len() > 0);
        assert(dest.skip(i - 1)[0] == dest[i - 1]);
        assert(dest.skip(i - 1).skip(1) =~= dest.skip(i));
    } else {
        assert(dest.skip(0) =~= dest);
    }
}

/// Finds the first destination name that belongs to the given stem.
pub fn find_match(dest: &Vec<Vec<u8>>, stem: &Vec<u8>) -> (r: Option<Vec<u8>>)
    ensures
        match r {
            Option::Some(name) => first_match(names_seq(dest@), stem@) == Option::Some(name@),
            Option::None => first_match(names_seq(dest@), stem@) is None,
        },
{
    let ghost dv = names_seq(dest@);
    let mut i: usize = 0;
    while i < dest.len()
        invariant
            0 <= i <= dest@.len(),
            dv == names_seq(dest@),
            forall|j: int| 0 <= j < i ==> !matches_stem(dv[j], stem@),
        decreases dest@.len() - i,
    {
        if name_matches_stem(&dest[i], stem) {
            proof {
                lemma_first_match_skip(dv, stem@, i as int);
                assert(dv.skip(i as int)[0] == dv[i as int]);
            }
            return Option::Some(dest[i].clone());
        }
        i = i + 1;
    }
    proof {
        lemma_first_match_skip(dv, stem@, dest@.len() as int);
        assert(dv.skip(dest@.len() as int).len() == 0);
    }
    Option::None
}

/// Derives the stem of an input path, as `stem_of` describes.
pub fn stem_of_path(p: &Vec<u8>) -> (r: Option<Vec<u8>>)
    ensures
        match r {
            Option::Some(s) => stem_of(p@) == Option::Some(s@),
            Option::None => stem_of(p@) is None,
        },
{
    let n = p.len();
    // Start of the file-name component: one past the last slash.
    let mut found_slash = false;
    let mut pos: usize = 0;
    let mut scan: usize = n;
    while scan > 0
        invariant
            0 <= scan <= n,
            n == p@.len(),
            !found_slash ==> forall|j: int| scan <= j < n ==> p@[j] != SLASH,
            found_slash ==> 1 <= pos <= n && p@[pos as int - 1] == SLASH
                && forall|j: int| pos <= j < n ==> p@[j] != SLASH,
        decreases scan,
    {
        if !found_slash && p[scan - 1] == SLASH {
            found_slash = true;
            pos = scan;
        }
        scan = scan - 1;
    }
    proof {
        if found_slash {
            lemma_rfind_at(p@, SLASH, pos as int - 1);
        } else {
            lemma_rfind_none(p@, SLASH);
        }
    }
    let start = if found_slash { pos } else { 0 };
    proof {
        assert(file_name_of(p@) =~= p@.skip(start as int));
    }
    let ghost f = file_name_of(p@);
    let flen = n - start;
    if flen == 0 {
        return Option::None;
    }
    if flen == 1 && p[start] == DOT {
        proof {
            assert(f =~= seq![DOT]);
        }
        return Option::None;
    }
    if flen == 2 && p[start] == DOT && p[start + 1] == DOT {
        proof {
            assert(f =~= seq![DOT, DOT]);
        }
        return Option::None;
    }
    proof {
        assert(f != seq![DOT] && f != seq![DOT, DOT]) by {
            if f == seq![DOT] {
                assert(f.len() == 1 && f[0] == DOT);
                assert(p@[start as int] == DOT);
            }
            if f == seq![DOT, DOT] {
                assert(f.len() == 2 && f[0] == DOT && f[1] == DOT);
            }
        }
    }
    // Last dot within the file name.
    let mut found_dot = false;
    let mut dot: usize = 0;
    let mut scan2: usize = n;
    while scan2 > start
        invariant
            start <= scan2 <= n,
            n == p@.len(),
            !found_dot ==> forall|j: int| scan2 <= j < n ==> p@[j] != DOT,
            found_dot ==> start <= dot < n && p@[dot as int] == DOT
                && forall|j: int| dot < j < n ==> p@[j] != DOT,
        decreases scan2,
    {
        if !found_dot && p[scan2 - 1] == DOT {
            found_dot = true;
            dot = scan2 - 1;
        }
        scan2 = scan2 - 1;
    }
    proof {
        assert(f.len() == n - start);
        assert(forall|j: int| 0 <= j < f.len() ==> f[j] == p@[start + j]);
        if found_dot {
            lemma_rfind_at(f, DOT, dot as int - start as int);
        } else {
            lemma_rfind_none(f, DOT);
        }
    }
    let stem_end = if !found_dot || dot == start { n } else { dot };
    let mut out: Vec<u8> = Vec::new();
    let mut i: usize = start;
    while i < stem_end
        invariant
            start <= i <= stem_end <= n,
            n == p@.len(),
            out@ =~= p@.subrange(start as int, i as int),
        decreases stem_end - i,
    {
        out.push(p[i]);
        i = i + 1;
    }
    proof {
        if !found_dot || dot == start {
            assert(out@ =~= f);
        } else {
            assert(out@ =~= f.take(dot as int - start as int));
        }
    }
    Option::Some(out)
}

/// The decimal digit bytes of `n`, most significant first, no leading
/// zero except for `n == 0` itself.
pub open spec fn dec_rep(n: nat) -> Seq<u8>
    decreases n,
{
    if n < 10 {
        seq![(ZERO + n) as u8]
    } else {
        dec_rep(n / 10).push((ZERO + n % 10) as u8)
    }
}

/// The decimal digits of `n`, zero-padded on the left to at least four
/// digits.
pub open spec fn padded_dec(n: nat) -> Seq<u8> {
    if dec_rep(n).len() >= 4 {
        dec_rep(n)
    } else {
        Seq::new((4 - dec_rep(n).len()) as nat, |i: int| ZERO) + dec_rep(n)
    }
}

/// The output name allocated to a new stem under index `idx`:
/// `NNNN-<stem>.bin`.
pub open spec fn fresh_name(idx: nat, stem: Seq<u8>) -> Seq<u8> {
    padded_dec(idx) + seq![HYPHEN] + stem + bin_suffix()
}

/// The decimal digits of `n`, as `dec_rep` describes them.
pub fn dec_digits(n: u32) -> (r: Vec<u8>)
    ensures
        r@ == dec_rep(n as nat),
    decreases n,
{
    if n < 10 {
        let mut v: Vec<u8> = Vec::new();
        v.push(ZERO + n as u8);
        proof {
            assert(v@ =~= dec_rep(n as nat));
        }
        v
    } else {
        let mut v = dec_digits(n / 10);
        v.push(ZERO + (n % 10) as u8);
        v
    }
}

/// Formats an index as decimal, zero-padded to at least four digits.
pub fn format_index(idx: u32) -> (r: Vec<u8>)
    ensures
        r@ == padded_dec(idx as nat),
{
    let mut digits = dec_digits(idx);
    let mut out: Vec<u8> = Vec::new();
    let dlen = digits.len();
    let mut pad: usize = 0;
    while pad + dlen < 4
        invariant
            dlen == dec_rep(idx as nat).len(),
            0 <= pad,
            dlen < 4 ==> pad + dlen <= 4,
            dlen >= 4 ==> pad == 0,
            out@ =~= Seq::new(pad as nat, |i: int| ZERO),
        decreases 4 - pad - dlen,
    {
        out.push(ZERO);
        proof {
            assert(out@ =~= Seq::new((pad + 1) as nat, |i: int| ZERO));
        }
        pad = pad + 1;
    }
    out.append(&mut digits);
    proof {
        assert(out@ =~= padded_dec(idx as nat));
    }
    out
}

/// Builds the output name `NNNN-<stem>.bin` for a fresh index.
pub fn make_fresh_name(idx: u32, stem: &Vec<u8>) -> (r: Vec<u8>)
    ensures
        r@ == fresh_name(idx as nat, stem@),
{
    let mut out = format_index(idx);
    out.push(HYPHEN);
    let mut i: usize = 0;
    while i < stem.len()
        invariant
            0 <= i <= stem@.len(),
            out@ =~= padded_dec(idx as nat) + seq![HYPHEN] + stem@.take(i as int),
        decreases stem@.len() - i,
    {
        out.push(stem[i]);
        proof {
            assert(out@ =~= padded_dec(idx as nat) + seq![HYPHEN] + stem@.take(i + 1));
        }
        i = i + 1;
    }
    out.push(DOT);
    out.push(98);
    out.push(105);
    out.push(110);
    proof {
        assert(stem@.take(stem@.len() as int) =~= stem@);
        assert(out@ =~= fresh_name(idx as nat, stem@));
    }
    out
}

/// Mapping from one input image path to the name of its output file in
/// the destination directory.
#[derive(Debug, Clone, PartialEq, Eq)]
pub struct ImageInfo {
    /// The input image path, as handed in.
    pub input: Vec<u8>,
    /// The output file name within the destination directory.
    pub output: Vec<u8>,
}

/// The input/output byte strings of a sequence of mappings.
pub open spec fn info_pairs(s: Seq<ImageInfo>) -> Seq<(Seq<u8>, Seq<u8>)> {
    s.map_values(|i: ImageInfo| (i.input@, i.output@))
}

/// The mappings produced for `srcs`, processed in order against the
/// destination listing `dest`, with `next` the first index free for new
/// stems. An input without a stem is skipped; an input whose stem owns
/// a destination name reuses the first such name; every other input
/// takes the next free index, which is then consumed.
pub open spec fn assign_model(srcs: Seq<Seq<u8>>, dest: Seq<Seq<u8>>, next: nat) -> Seq<
    (Seq<u8>, Seq<u8>),
>
    decreases srcs.len(),
{
    if srcs.len() == 0 {
        Seq::empty()
    } else {
        match stem_of(srcs[0]) {
            Option::None => assign_model(srcs.skip(1), dest, next),
            Option::Some(stem) => match first_match(dest, stem) {
                Option::Some(name) => seq![(srcs[0], name)] + assign_model(
                    srcs.skip(1),
                    dest,
                    next,
                ),
                Option::None => seq![(srcs[0], fresh_name(next, stem))] + assign_model(
                    srcs.skip(1),
                    dest,
                    next + 1,
                ),
            },
        }
    }
}

/// Relies on rand's `SliceRandom::shuffle` with the thread-local
/// generator: it permutes the vector in place, so the new contents are
/// a rearrangement of the old, whatever order the generator picks.
#[verifier::external_body]
fn shuffle_names(v: &mut Vec<Vec<u8>>)
    ensures
        final(v)@.len() == old(v)@.len(),
        names_seq(final(v)@).to_multiset() == names_seq(old(v)@).to_multiset(),
{
    v.shuffle(&mut rand::rng());
}

/// Maps every input path to an output name in the destination
/// directory, as `assign_model` describes: inputs whose stem already
/// owns a numbered destination file reuse that exact name; the rest
/// receive fresh indices counted up from one past the highest index
/// present. With `random`, the inputs are first put in a random order,
/// which can change only who gets which fresh index.
pub fn get_images(sources: Vec<Vec<u8>>, dest_files: &Vec<Vec<u8>>, random: bool) -> (r: Vec<
    ImageInfo,
>)
    requires
        last_index_of(names_seq(dest_files@)) + sources@.len() < u32::MAX,
    ensures
        !random ==> info_pairs(r@) == assign_model(
            names_seq(sources@),
            names_seq(dest_files@),
            (last_index_of(names_seq(dest_files@)) + 1) as nat,
        ),
        random ==> exists|p: Seq<Seq<u8>>|
            #[trigger] p.to_multiset() == names_seq(sources@).to_multiset() && info_pairs(r@)
                == assign_model(
                p,
                names_seq(dest_files@),
                (last_index_of(names_seq(dest_files@)) + 1) as nat,
            ),
        sources@.len() == 0 ==> r@.len() == 0,
{
    let ghost destv = names_seq(dest_files@);
    let mut files = sources;
    if random {
        shuffle_names(&mut files);
    }
    let ghost srcv = names_seq(files@);
    let last = last_index(dest_files);
    let mut next: u32 = last + 1;
    let mut result: Vec<ImageInfo> = Vec::new();
    let mut i: usize = 0;
    proof {
        assert(srcv.skip(0) =~= srcv);
        assert(info_pairs(result@) + assign_model(srcv, destv, next as nat) =~= assign_model(
            srcv,
            destv,
            (last + 1) as nat,
        ));
    }
    while i < files.len()
        invariant
            0 <= i <= files@.len(),
            srcv == names_seq(files@),
            destv == names_seq(dest_files@),
            last == last_index_of(destv),
            srcv.len() + (last as int) < u32::MAX,
            (next as int) <= last + 1 + i,
            last + 1 <= (next as int),
            srcv.len() == 0 ==> result@.len() == 0,
            info_pairs(result@) + assign_model(srcv.skip(i as int), destv, next as nat)
                =~= assign_model(srcv, destv, (last + 1) as nat),
        decreases files@.len() - i,
    {
        proof {
            assert(srcv.skip(i as int).len() > 0);
            assert(srcv.skip(i as int)[0] == srcv[i as int]);
            assert(srcv.skip(i as int).skip(1) =~= srcv.skip(i + 1));
            assert(srcv[i as int] == files@[i as int]@);
        }
        let ghost pairs_before = info_pairs(result@);
        let ghost rest_before = assign_model(srcv.skip(i as int), destv, next as nat);
        match stem_of_path(&files[i]) {
            Option::None => {
                proof {
                    assert(assign_model(srcv.skip(i as int), destv, next as nat) == assign_model(
                        srcv.skip(i + 1),
                        destv,
                        next as nat,
                    ));
                }
            },
            Option::Some(stem) => {
                match find_match(dest_files, &stem) {
                    Option::Some(name) => {
                        let entry = ImageInfo { input: files[i].clone(), output: name };
                        proof {
                            assert(entry.input@ == srcv[i as int]);
                        }
                        result.push(entry);
                        proof {
                            assert(info_pairs(result@) =~= pairs_before.push(
                                (srcv[i as int], first_match(destv, stem@).unwrap()),
                            ));
                            assert(rest_before == seq![
                                (srcv[i as int], first_match(destv, stem@).unwrap()),
                            ] + assign_model(srcv.skip(i + 1), destv, next as nat));
                            assert(info_pairs(result@) + assign_model(
                                srcv.skip(i + 1),
                                destv,
                                next as nat,
                            ) =~= pairs_before + rest_before);
                        }
                    },
                    Option::None => {
                        let out_name = make_fresh_name(next, &stem);
                        let entry = ImageInfo { input: files[i].clone(), output: out_name };
                        proof {
                            assert(entry.input@ == srcv[i as int]);
                        }
                        result.push(entry);
                        next = next + 1;
                        proof {
                            assert(info_pairs(result@) =~= pairs_before.push(
                                (srcv[i as int], fresh_name((next - 1) as nat, stem@)),
                            ));
                            assert(rest_before == seq![
                                (srcv[i as int], fresh_name((next - 1) as nat, stem@)),
                            ] + assign_model(srcv.skip(i + 1), destv, next as nat));
                            assert(info_pairs(result@) + assign_model(
                                srcv.skip(i + 1),
                                destv,
                                next as nat,
                            ) =~= pairs_before + rest_before);
                        }
                    },
                }
            },
        }
        i = i + 1;
    }
    proof {
        assert(srcv.skip(files@.len() as int).len() == 0);
        assert(assign_model(srcv.skip(files@.len() as int), destv, next as nat)
            == Seq::<(Seq<u8>, Seq<u8>)>::empty());
        assert(info_pairs(result@) + Seq::<(Seq<u8>, Seq<u8>)>::empty() =~= info_pairs(result@));
        assert(info_pairs(result@) == assign_model(srcv, destv, (last + 1) as nat));
        if !random {
            assert(srcv == names_seq(sources@));
        }
    }
    result
}

/// An input is "fresh" against a destination listing when it has a stem
/// and no destination name belongs to that stem.
pub open spec fn is_fresh_input(p: Seq<u8>, dest: Seq<Seq<u8>>) -> bool {
    stem_of(p) is Some && first_match(dest, stem_of(p).unwrap()) is None
}

/// How many of the first `j` inputs are fresh against `dest`.
pub open spec fn fresh_before(srcs: Seq<Seq<u8>>, dest: Seq<Seq<u8>>, j: int) -> nat
    decreases j,
{
    if j <= 0 {
        0
    } else {
        fresh_before(srcs, dest, j - 1) + (if is_fresh_input(srcs[j - 1], dest) {
            1nat
        } else {
            0nat
        })
    }
}

proof fn lemma_fresh_before_skip(srcs: Seq<Seq<u8>>, dest: Seq<Seq<u8>>, j: int)
    requires
        1 <= j <= srcs.len(),
    ensures
        fresh_before(srcs, dest, j) == (if is_fresh_input(srcs[0], dest) {
            1nat
        } else {
            0nat
        }) + fresh_before(srcs.skip(1), dest, j - 1),
    decreases j,
{
    if j == 1 {
        assert(fresh_before(srcs, dest, 0) == 0);
        assert(fresh_before(srcs.skip(1), dest, 0) == 0);
        assert(fresh_before(srcs, dest, 1) == fresh_before(srcs, dest, 0) + (if is_fresh_input(
            srcs[0],
            dest,
        ) {
            1nat
        } else {
            0nat
        }));
    } else {
        lemma_fresh_before_skip(srcs, dest, j - 1);
        assert(srcs.skip(1)[j - 2] == srcs[j - 1]);
        assert(fresh_before(srcs, dest, j) == fresh_before(srcs, dest, j - 1) + (if is_fresh_input(
            srcs[j - 1],
            dest,
        ) {
            1nat
        } else {
            0nat
        }));
        assert(fresh_before(srcs.skip(1), dest, j - 1) == fresh_before(srcs.skip(1), dest, j - 2)
            + (if is_fresh_input(srcs.skip(1)[j - 2], dest) {
            1nat
        } else {
            0nat
        }));
    }
}

proof fn lemma_contains_lift(pre: Seq<(Seq<u8>, Seq<u8>)>, tail: Seq<(Seq<u8>, Seq<u8>)>, x: (Seq<u8>, Seq<u8>))
    requires
        tail.contains(x),
    ensures
        (pre + tail).contains(x),
{
    let idx = choose|idx: int| 0 <= idx < tail.len() && tail[idx] == x;
    assert((pre + tail)[pre.len() + idx] == x);
}

/// Law: an input whose stem already owns a destination name is mapped
/// to the first such name, wherever it stands in the batch and whatever
/// the counter holds, so an existing index is always reused.
pub proof fn lemma_index_reuse(srcs: Seq<Seq<u8>>, dest: Seq<Seq<u8>>, next: nat, j: int)
    requires
        0 <= j < srcs.len(),
        stem_of(srcs[j]) is Some,
        first_match(dest, stem_of(srcs[j]).unwrap()) is Some,
    ensures
        assign_model(srcs, dest, next).contains(
            (srcs[j], first_match(dest, stem_of(srcs[j]).unwrap()).unwrap()),
        ),
    decreases j,
{
    let model = assign_model(srcs, dest, next);
    if j == 0 {
        let pair = (srcs[0], first_match(dest, stem_of(srcs[0]).unwrap()).unwrap());
        assert(model[0] == pair);
    } else {
        let pair = (srcs[j], first_match(dest, stem_of(srcs[j]).unwrap()).unwrap());
        assert(srcs.skip(1)[j - 1] == srcs[j]);
        match stem_of(srcs[0]) {
            Option::None => {
                lemma_index_reuse(srcs.skip(1), dest, next, j - 1);
            },
            Option::Some(stem0) => {
                match first_match(dest, stem0) {
                    Option::Some(name0) => {
                        lemma_index_reuse(srcs.skip(1), dest, next, j - 1);
                        lemma_contains_lift(
                            seq![(srcs[0], name0)],
                            assign_model(srcs.skip(1), dest, next),
                            pair,
                        );
                    },
                    Option::None => {
                        lemma_index_reuse(srcs.skip(1), dest, next + 1, j - 1);
                        lemma_contains_lift(
                            seq![(srcs[0], fresh_name(next, stem0))],
                            assign_model(srcs.skip(1), dest, next + 1),
                            pair,
                        );
                    },
                }
            },
        }
    }
}

/// Law: a fresh input is mapped to a freshly formatted name whose index
/// is the starting counter plus the number of fresh inputs before it.
/// Every fresh index is therefore at least the starting counter.
pub proof fn lemma_fresh_allocation(srcs: Seq<Seq<u8>>, dest: Seq<Seq<u8>>, next: nat, j: int)
    requires
        0 <= j < srcs.len(),
        is_fresh_input(srcs[j], dest),
    ensures
        assign_model(srcs, dest, next).contains(
            (srcs[j], fresh_name(next + fresh_before(srcs, dest, j), stem_of(srcs[j]).unwrap())),
        ),
    decreases j,
{
    let model = assign_model(srcs, dest, next);
    if j == 0 {
        let pair = (srcs[0], fresh_name(next, stem_of(srcs[0]).unwrap()));
        assert(model[0] == pair);
        assert(next + fresh_before(srcs, dest, 0) == next);
    } else {
        lemma_fresh_before_skip(srcs, dest, j);
        assert(srcs.skip(1)[j - 1] == srcs[j]);
        let stem = stem_of(srcs[j]).unwrap();
        match stem_of(srcs[0]) {
            Option::None => {
                lemma_fresh_allocation(srcs.skip(1), dest, next, j - 1);
            },
            Option::Some(stem0) => {
                match first_match(dest, stem0) {
                    Option::Some(name0) => {
                        lemma_fresh_allocation(srcs.skip(1), dest, next, j - 1);
                        lemma_contains_lift(
                            seq![(srcs[0], name0)],
                            assign_model(srcs.skip(1), dest, next),
                            (srcs[j], fresh_name(next + fresh_before(srcs, dest, j), stem)),
                        );
                    },
                    Option::None => {
                        lemma_fresh_allocation(srcs.skip(1), dest, next + 1, j - 1);
                        assert(next + fresh_before(srcs, dest, j) == (next + 1)
                            + fresh_before(srcs.skip(1), dest, j - 1));
                        lemma_contains_lift(
                            seq![(srcs[0], fresh_name(next, stem0))],
                            assign_model(srcs.skip(1), dest, next + 1),
                            (srcs[j], fresh_name(next + fresh_before(srcs, dest, j), stem)),
                        );
                    },
                }
            },
        }
    }
}

/// Law: two distinct fresh inputs never receive the same index within
/// one run, since the count of fresh inputs strictly grows past each.
pub proof fn lemma_fresh_indices_distinct(srcs: Seq<Seq<u8>>, dest: Seq<Seq<u8>>, j1: int, j2: int)
    requires
        0 <= j1 < j2 <= srcs.len(),
        is_fresh_input(srcs[j1], dest),
    ensures
        fresh_before(srcs, dest, j1) < fresh_before(srcs, dest, j2),
    decreases j2 - j1,
{
    if j2 > j1 + 1 {
        lemma_fresh_indices_distinct(srcs, dest, j1, j2 - 1);
    }
}

} // verus!
