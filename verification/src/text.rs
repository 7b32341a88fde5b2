//! Text as CGNS nodes store it: labels, `C1` character data, and the
//! null-padded strings the writer emits.
use vstd::prelude::*;

verus! {

/// Unicode white space (the `White_Space` property).
pub open spec fn is_white(c: char) -> bool {
    let u = c as u32;
    (0x9 <= u <= 0xd) || u == 0x20 || u == 0x85 || u == 0xa0 || u == 0x1680 || (0x2000 <= u
        <= 0x200a) || u == 0x2028 || u == 0x2029 || u == 0x202f || u == 0x205f || u == 0x3000
}

/// The characters that a trim removes: white space, or the null character.
pub open spec fn trimmed_char(c: char, nul: bool) -> bool {
    if nul {
        c == '\0'
    } else {
        is_white(c)
    }
}

/// `s` without its leading characters of the trimmed kind.
pub open spec fn trim_start(s: Seq<char>, nul: bool) -> Seq<char>
    decreases s.len(),
{
    if s.len() > 0 && trimmed_char(s[0], nul) {
        trim_start(s.drop_first(), nul)
    } else {
        s
    }
}

/// `s` without its trailing characters of the trimmed kind.
pub open spec fn trim_end(s: Seq<char>, nul: bool) -> Seq<char>
    decreases s.len(),
{
    if s.len() > 0 && trimmed_char(s.last(), nul) {
        trim_end(s.drop_last(), nul)
    } else {
        s
    }
}

/// `s` without leading and trailing characters of the trimmed kind.
pub open spec fn trim(s: Seq<char>, nul: bool) -> Seq<char> {
    trim_end(trim_start(s, nul), nul)
}

fn is_trimmed_char(c: char, nul: bool) -> (b: bool)
    ensures
        b == trimmed_char(c, nul),
{
    if nul {
        c == '\0'
    } else {
        let u = c as u32;
        (0x9 <= u && u <= 0xd) || u == 0x20 || u == 0x85 || u == 0xa0 || u == 0x1680 || (0x2000 <= u
            && u <= 0x200a) || u == 0x2028 || u == 0x2029 || u == 0x202f || u == 0x205f || u
            == 0x3000
    }
}

proof fn lemma_trim_start_skip(s: Seq<char>, nul: bool, i: int)
    requires
        0 <= i <= s.len(),
        forall|k: int| 0 <= k < i ==> trimmed_char(#[trigger] s[k], nul),
    ensures
        trim_start(s, nul) == trim_start(s.skip(i), nul),
    decreases i,
{
    if i > 0 {
        lemma_trim_start_skip(s.drop_first(), nul, i - 1);
        assert(s.drop_first().skip(i - 1) =~= s.skip(i));
    } else {
        assert(s.skip(0) =~= s);
    }
}

proof fn lemma_trim_end_take(s: Seq<char>, nul: bool, j: int)
    requires
        0 <= j <= s.len(),
        forall|k: int| j <= k < s.len() ==> trimmed_char(#[trigger] s[k], nul),
    ensures
        trim_end(s, nul) == trim_end(s.take(j), nul),
    decreases s.len() - j,
{
    if j < s.len() {
        lemma_trim_end_take(s.drop_last(), nul, j);
        assert(s.drop_last().take(j) =~= s.take(j));
    } else {
        assert(s.take(j) =~= s);
    }
}

/// Removes leading and trailing characters of one kind: white space, or
/// (with `nul`) the null character.
pub fn trim_chars(s: &[char], nul: bool) -> (r: Vec<char>)
    ensures
        r@ == trim(s@, nul),
{
    let n = s.len();
    let mut i: usize = 0;
    while i < n && is_trimmed_char(s[i], nul)
        invariant
            i <= n == s.len(),
            forall|k: int| 0 <= k < i ==> trimmed_char(#[trigger] s@[k], nul),
        decreases n - i,
    {
        i = i + 1;
    }
    proof {
        lemma_trim_start_skip(s@, nul, i as int);
    }
    let ghost t = s@.skip(i as int);
    assert(trim_start(t, nul) == t) by {
        if t.len() > 0 {
            assert(t[0] == s@[i as int]);
        }
    }
    let mut j: usize = n;
    while j > i && is_trimmed_char(s[j - 1], nul)
        invariant
            i <= j <= n == s.len(),
            t == s@.skip(i as int),
            forall|k: int| j - i <= k < t.len() ==> trimmed_char(#[trigger] t[k], nul),
        decreases j,
    {
        assert(t[j - 1 - i] == s@[j - 1]);
        j = j - 1;
    }
    proof {
        lemma_trim_end_take(t, nul, (j - i) as int);
        let u = t.take((j - i) as int);
        if u.len() > 0 {
            assert(u.last() == s@[j - 1]);
        }
        assert(trim_end(u, nul) == u);
    }
    let mut out: Vec<char> = Vec::new();
    let mut k = i;
    while k < j
        invariant
            i <= k <= j <= n == s.len(),
            out@ == s@.subrange(i as int, k as int),
        decreases j - k,
    {
        out.push(s[k]);
        assert(s@.subrange(i as int, k + 1) =~= s@.subrange(i as int, k as int).push(s@[k as int]));
        k = k + 1;
    }
    assert(s@.subrange(i as int, j as int) =~= t.take((j - i) as int));
    out
}

/// A node label as stored (fixed-length ASCII, possibly padded) made into
/// the label it names: white space trimmed, then null characters trimmed.
pub fn clean_label(raw: &[char]) -> (r: Vec<char>)
    ensures
        r@ == trim(trim(raw@, false), true),
{
    let t = trim_chars(raw, false);
    trim_chars(t.as_slice(), true)
}

/// The character that a stored `C1` byte stands for (its Latin-1 value).
pub open spec fn c1_char(b: i8) -> char {
    ((b as u8) as u32) as char
}

/// The characters of `C1` data up to its first zero byte.
pub open spec fn c1_prefix(data: Seq<i8>) -> Seq<char>
    decreases data.len(),
{
    if data.len() == 0 || data[0] == 0 {
        Seq::empty()
    } else {
        seq![c1_char(data[0])] + c1_prefix(data.drop_first())
    }
}

/// The text of `C1` character data: the bytes up to the first zero, each as
/// its Latin-1 character, with surrounding white space trimmed.
pub fn c1_text(data: &[i8]) -> (r: Vec<char>)
    ensures
        r@ == trim(c1_prefix(data@), false),
{
    let mut chars: Vec<char> = Vec::new();
    let mut i: usize = 0;
    assert(data@.skip(0) =~= data@);
    assert(chars@ + c1_prefix(data@) =~= c1_prefix(data@));
    while i < data.len() && data[i] != 0
        invariant
            i <= data.len(),
            forall|k: int| 0 <= k < i ==> data@[k] != 0,
            c1_prefix(data@) == chars@ + c1_prefix(data@.skip(i as int)),
        decreases data.len() - i,
    {
        let c = (data[i] as u8) as char;
        assert(data@.skip(i as int).drop_first() =~= data@.skip(i + 1));
        assert(data@.skip(i as int)[0] == data@[i as int]);
        chars.push(c);
        assert(chars@ + c1_prefix(data@.skip(i + 1)) =~= chars@.drop_last() + (seq![c]
            + c1_prefix(data@.skip(i + 1))));
        i = i + 1;
    }
    assert(c1_prefix(data@.skip(i as int)) =~= Seq::<char>::empty()) by {
        if i < data.len() {
            assert(data@.skip(i as int)[0] == data@[i as int]);
        }
    }
    assert(chars@ + Seq::<char>::empty() =~= chars@);
    trim_chars(chars.as_slice(), false)
}


/// Whether two texts are the same.
pub fn chars_eq(a: &[char], b: &[char]) -> (r: bool)
    ensures
        r == (a@ == b@),
{
    if a.len() != b.len() {
        return false;
    }
    let mut i: usize = 0;
    while i < a.len()
        invariant
            i <= a.len() == b.len(),
            forall|k: int| 0 <= k < i ==> a@[k] == b@[k],
        decreases a.len() - i,
    {
        if a[i] != b[i] {
            return false;
        }
        i = i + 1;
    }
    assert(a@ =~= b@);
    true
}

/// Label of child `i`, when it could be read.
pub open spec fn label_of(labels: Seq<Option<Vec<char>>>, i: int) -> Option<Seq<char>> {
    match labels[i] {
        Some(l) => Some(l@),
        None => None,
    }
}

/// Child `i` carries the label.
pub open spec fn has_label(labels: Seq<Option<Vec<char>>>, i: int, label: Seq<char>) -> bool {
    label_of(labels, i) == Some(label)
}

/// Positions, in order, of the first `k` children that carry the label.
pub open spec fn positions_with_label(labels: Seq<Option<Vec<char>>>, label: Seq<char>, k: int) -> Seq<
    usize,
>
    decreases k,
{
    if k <= 0 {
        Seq::empty()
    } else if has_label(labels, k - 1, label) {
        positions_with_label(labels, label, k - 1).push((k - 1) as usize)
    } else {
        positions_with_label(labels, label, k - 1)
    }
}

fn label_matches(l: &Option<Vec<char>>, label: &[char]) -> (r: bool)
    ensures
        r == (match l {
            Some(v) => v@ == label@,
            None => false,
        }),
{
    match l {
        Some(v) => chars_eq(v.as_slice(), label),
        None => false,
    }
}

/// Position of the first child that carries the label (children whose label
/// could not be read are passed over).
pub fn first_with_label(labels: &[Option<Vec<char>>], label: &[char]) -> (r: Option<usize>)
    ensures
        match r {
            Some(i) => i < labels.len() && has_label(labels@, i as int, label@) && forall|k: int|
                0 <= k < i ==> !has_label(labels@, k, label@),
            None => forall|k: int| 0 <= k < labels.len() ==> !has_label(labels@, k, label@),
        },
{
    let mut i: usize = 0;
    while i < labels.len()
        invariant
            i <= labels.len(),
            forall|k: int| 0 <= k < i ==> !has_label(labels@, k, label@),
        decreases labels.len() - i,
    {
        if label_matches(&labels[i], label) {
            return Some(i);
        }
        i = i + 1;
    }
    None
}

/// Positions, in order, of all children that carry the label.
pub fn positions_of_label(labels: &[Option<Vec<char>>], label: &[char]) -> (r: Vec<usize>)
    ensures
        r@ == positions_with_label(labels@, label@, labels.len() as int),
{
    let mut out: Vec<usize> = Vec::new();
    let mut i: usize = 0;
    while i < labels.len()
        invariant
            i <= labels.len(),
            out@ == positions_with_label(labels@, label@, i as int),
        decreases labels.len() - i,
    {
        if label_matches(&labels[i], label) {
            out.push(i);
        }
        i = i + 1;
    }
    out
}

/// The zone type this reader supports.
pub open spec fn unstructured() -> Seq<char> {
    seq!['U', 'n', 's', 't', 'r', 'u', 'c', 't', 'u', 'r', 'e', 'd']
}

/// Whether a zone type is the supported one, `Unstructured`.
pub fn is_unstructured(zone_type: &[char]) -> (r: bool)
    ensures
        r == (zone_type@ == unstructured()),
{
    let expected = vec!['U', 'n', 's', 't', 'r', 'u', 'c', 't', 'u', 'r', 'e', 'd'];
    assert(expected@ =~= unstructured());
    chars_eq(zone_type, expected.as_slice())
}

/// `n` zero bytes.
pub open spec fn zeros<T>(n: int, zero: T) -> Seq<T> {
    Seq::new(n as nat, |i: int| zero)
}

/// A string value null-padded to a fixed attribute size.
pub fn null_padded(value: &[u8], size: usize) -> (r: Vec<u8>)
    requires
        value.len() <= size,
    ensures
        r@ == value@ + zeros(size - value.len(), 0u8),
{
    let mut out: Vec<u8> = Vec::new();
    let mut i: usize = 0;
    while i < size
        invariant
            i <= size,
            value.len() <= size,
            out@ == (value@ + zeros(size - value.len(), 0u8)).take(i as int),
        decreases size - i,
    {
        let b: u8 = if i < value.len() {
            value[i]
        } else {
            0
        };
        out.push(b);
        assert(out@ =~= (value@ + zeros(size - value.len(), 0u8)).take(i + 1));
        i = i + 1;
    }
    assert((value@ + zeros(size - value.len(), 0u8)).take(size as int) =~= value@ + zeros(
        size - value.len(),
        0u8,
    ));
    out
}

/// Text bytes as the signed bytes of `C1` data.
pub open spec fn c1_bytes_of(value: Seq<u8>) -> Seq<i8> {
    value.map_values(|b: u8| b as i8)
}

/// The signed bytes of `C1` data holding a text.
pub fn c1_bytes(value: &[u8]) -> (r: Vec<i8>)
    ensures
        r@ == c1_bytes_of(value@),
{
    let mut out: Vec<i8> = Vec::new();
    let mut i: usize = 0;
    while i < value.len()
        invariant
            i <= value.len(),
            out@ == c1_bytes_of(value@).take(i as int),
        decreases value.len() - i,
    {
        out.push(value[i] as i8);
        assert(out@ =~= c1_bytes_of(value@).take(i + 1));
        i = i + 1;
    }
    assert(c1_bytes_of(value@).take(value.len() as int) =~= c1_bytes_of(value@));
    out
}

/// The signed bytes of a text null-padded to a fixed size.
pub fn c1_padded(value: &[u8], size: usize) -> (r: Vec<i8>)
    requires
        value.len() <= size,
    ensures
        r@ == c1_bytes_of(value@) + zeros(size - value.len(), 0i8),
{
    let padded = null_padded(value, size);
    let r = c1_bytes(padded.as_slice());
    assert(r@ =~= c1_bytes_of(value@) + zeros(size - value.len(), 0i8));
    r
}

} // verus!
