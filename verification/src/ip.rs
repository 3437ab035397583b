//! Recognition of IP address text, as `IpAddr`'s `FromStr` accepts it:
//! dotted-quad IPv4 and the colon forms of IPv6, with `::` and an optional
//! trailing dotted quad.
use vstd::prelude::*;
use crate::text::split_on;
use crate::text::spec_split;
use crate::text::lemma_split_no_sep;
use crate::text::seqs_of;
use crate::text::sub_chars;

verus! {

pub open spec fn is_dec_digit(c: char) -> bool {
    '0' <= c && c <= '9'
}

pub open spec fn is_hex_digit(c: char) -> bool {
    ||| ('0' <= c && c <= '9')
    ||| ('a' <= c && c <= 'f')
    ||| ('A' <= c && c <= 'F')
}

pub open spec fn all_dec(s: Seq<char>) -> bool {
    forall|i: int| 0 <= i < s.len() ==> #[trigger] is_dec_digit(s[i])
}

pub open spec fn all_hex(s: Seq<char>) -> bool {
    forall|i: int| 0 <= i < s.len() ==> #[trigger] is_hex_digit(s[i])
}

/// The number that a run of decimal digits denotes.
pub open spec fn dec_value(s: Seq<char>) -> nat
    decreases s.len(),
{
    if s.len() == 0 {
        0
    } else {
        dec_value(s.drop_last()) * 10 + ((s.last() as u32) - ('0' as u32)) as nat
    }
}

/// One field of a dotted quad: one to three digits, no leading zero unless
/// the field is a single digit, and a value that fits in a byte.
pub open spec fn is_dec_octet(s: Seq<char>) -> bool {
    &&& 1 <= s.len() <= 3
    &&& all_dec(s)
    &&& (s.len() == 1 || s[0] != '0')
    &&& dec_value(s) <= 255
}

/// One group of an IPv6 address: one to four hexadecimal digits.
pub open spec fn is_hex_group(s: Seq<char>) -> bool {
    1 <= s.len() <= 4 && all_hex(s)
}

/// Dotted-quad IPv4 text: exactly four octets separated by '.'.
pub open spec fn is_ipv4_text(s: Seq<char>) -> bool {
    let f = spec_split(s, '.');
    f.len() == 4 && forall|i: int| 0 <= i < 4 ==> #[trigger] is_dec_octet(f[i])
}

/// Fields that are all IPv6 groups.
pub open spec fn all_groups(f: Seq<Seq<char>>) -> bool {
    forall|i: int| 0 <= i < f.len() ==> #[trigger] is_hex_group(f[i])
}

/// Fields that are IPv6 groups, except that the last one may instead be a
/// dotted quad (which stands for two groups).
pub open spec fn groups_with_v4_tail(f: Seq<Seq<char>>) -> bool {
    &&& f.len() > 0
    &&& forall|i: int| 0 <= i < f.len() - 1 ==> #[trigger] is_hex_group(f[i])
    &&& (is_hex_group(f.last()) || is_ipv4_text(f.last()))
}

/// How many 16-bit groups such fields stand for.
pub open spec fn group_count(f: Seq<Seq<char>>) -> int {
    if f.len() > 0 && is_ipv4_text(f.last()) {
        f.len() + 1int
    } else {
        f.len() as int
    }
}

/// Whether `s` holds "::" starting at index `i`.
pub open spec fn double_colon_at(s: Seq<char>, i: int) -> bool {
    0 <= i && i + 1 < s.len() && s[i] == ':' && s[i + 1] == ':'
}

pub open spec fn has_double_colon(s: Seq<char>) -> bool {
    exists|i: int| double_colon_at(s, i)
}

/// The index of the first "::" in `s`.
pub open spec fn first_double_colon(s: Seq<char>) -> int
    recommends
        has_double_colon(s),
{
    choose|i: int| double_colon_at(s, i) && forall|j: int| 0 <= j < i ==> !double_colon_at(s, j)
}

/// The fields of one side of "::": none for an empty side.
pub open spec fn side_fields(s: Seq<char>) -> Seq<Seq<char>> {
    if s.len() == 0 {
        Seq::empty()
    } else {
        spec_split(s, ':')
    }
}

/// IPv6 text: either eight groups (the last two may be a dotted quad), or
/// groups before and after a single "::" that together stand for at most
/// seven groups, where only the very last field may be a dotted quad.
pub open spec fn is_ipv6_text(s: Seq<char>) -> bool {
    if has_double_colon(s) {
        let p = first_double_colon(s);
        compressed_ipv6_ok(s.take(p), s.skip(p + 2))
    } else {
        full_ipv6_ok(s)
    }
}

/// The two sides of the first "::" of IPv6 text.
pub open spec fn compressed_ipv6_ok(before: Seq<char>, after: Seq<char>) -> bool {
    let head = side_fields(before);
    let tail = side_fields(after);
    &&& all_groups(head)
    &&& (tail.len() == 0 || groups_with_v4_tail(tail))
    &&& head.len() + group_count(tail) <= 7
}

/// IPv6 text without "::": eight groups in all.
pub open spec fn full_ipv6_ok(s: Seq<char>) -> bool {
    let f = spec_split(s, ':');
    &&& groups_with_v4_tail(f)
    &&& group_count(f) == 8
}

/// Text that parses as an IP address (IPv4 or IPv6).
pub open spec fn is_ip_text(s: Seq<char>) -> bool {
    is_ipv4_text(s) || is_ipv6_text(s)
}


fn is_dec_digit_exec(c: char) -> (b: bool)
    ensures
        b == is_dec_digit(c),
{
    '0' <= c && c <= '9'
}

fn is_hex_digit_exec(c: char) -> (b: bool)
    ensures
        b == is_hex_digit(c),
{
    ('0' <= c && c <= '9') || ('a' <= c && c <= 'f') || ('A' <= c && c <= 'F')
}

fn is_dec_octet_exec(s: &Vec<char>) -> (b: bool)
    ensures
        b == is_dec_octet(s@),
{
    if s.len() < 1 || s.len() > 3 {
        return false;
    }
    let mut value: u32 = 0;
    let mut i: usize = 0;
    proof {
        assert(s@.take(0) =~= Seq::<char>::empty());
    }
    while i < s.len()
        invariant
            1 <= s.len() <= 3,
            i <= s.len(),
            all_dec(s@.take(i as int)),
            value == dec_value(s@.take(i as int)),
            value < 1000,
            i == 0 ==> value == 0,
            i == 1 ==> value < 10,
            i == 2 ==> value < 100,
        decreases s.len() - i,
    {
        let c = s[i];
        if !is_dec_digit_exec(c) {
            assert(!all_dec(s@));
            return false;
        }
        proof {
            assert(s@.take(i + 1).drop_last() =~= s@.take(i as int));
            assert(s@.take(i + 1).last() == c);
        }
        value = value * 10 + ((c as u32) - ('0' as u32));
        i = i + 1;
        proof {
            assert forall|j: int| 0 <= j < i implies #[trigger] is_dec_digit(s@.take(i as int)[j]) by {
                if j < i - 1 {
                    assert(s@.take(i as int)[j] == s@.take(i - 1)[j]);
                }
            }
        }
    }
    proof {
        assert(s@.take(s@.len() as int) =~= s@);
    }
    (s.len() == 1 || s[0] != '0') && value <= 255
}

fn is_hex_group_exec(s: &Vec<char>) -> (b: bool)
    ensures
        b == is_hex_group(s@),
{
    if s.len() < 1 || s.len() > 4 {
        return false;
    }
    let mut i: usize = 0;
    while i < s.len()
        invariant
            i <= s.len(),
            forall|j: int| 0 <= j < i ==> #[trigger] is_hex_digit(s@[j]),
        decreases s.len() - i,
    {
        if !is_hex_digit_exec(s[i]) {
            return false;
        }
        i = i + 1;
    }
    true
}

/// Whether `s` is dotted-quad IPv4 text.
pub fn is_ipv4_chars(s: &Vec<char>) -> (b: bool)
    ensures
        b == is_ipv4_text(s@),
{
    let f = split_on(s, '.');
    if f.len() != 4 {
        return false;
    }
    let mut i: usize = 0;
    while i < 4
        invariant
            i <= 4,
            f.len() == 4,
            seqs_of(f@) == spec_split(s@, '.'),
            forall|j: int| 0 <= j < i ==> #[trigger] is_dec_octet(spec_split(s@, '.')[j]),
        decreases 4 - i,
    {
        assert(seqs_of(f@)[i as int] == f@[i as int]@);
        if !is_dec_octet_exec(&f[i]) {
            return false;
        }
        i = i + 1;
    }
    true
}

fn all_groups_exec(f: &Vec<Vec<char>>) -> (b: bool)
    ensures
        b == all_groups(seqs_of(f@)),
{
    let mut i: usize = 0;
    while i < f.len()
        invariant
            i <= f.len(),
            forall|j: int| 0 <= j < i ==> #[trigger] is_hex_group(seqs_of(f@)[j]),
        decreases f.len() - i,
    {
        if !is_hex_group_exec(&f[i]) {
            assert(!is_hex_group(seqs_of(f@)[i as int]));
            return false;
        }
        i = i + 1;
    }
    true
}

fn groups_with_v4_tail_exec(f: &Vec<Vec<char>>) -> (b: bool)
    ensures
        b == groups_with_v4_tail(seqs_of(f@)),
{
    if f.len() == 0 {
        return false;
    }
    let n = f.len() - 1;
    let mut i: usize = 0;
    while i < n
        invariant
            n == f.len() - 1,
            i <= n,
            forall|j: int| 0 <= j < i ==> #[trigger] is_hex_group(seqs_of(f@)[j]),
        decreases n - i,
    {
        if !is_hex_group_exec(&f[i]) {
            assert(!is_hex_group(seqs_of(f@)[i as int]));
            return false;
        }
        i = i + 1;
    }
    assert(seqs_of(f@).last() == f@[n as int]@);
    is_hex_group_exec(&f[n]) || is_ipv4_chars(&f[n])
}

fn group_count_exec(f: &Vec<Vec<char>>) -> (n: usize)
    requires
        f.len() < 100,
    ensures
        n == group_count(seqs_of(f@)),
{
    if f.len() > 0 && is_ipv4_chars(&f[f.len() - 1]) {
        assert(seqs_of(f@).last() == f@[f.len() - 1]@);
        f.len() + 1
    } else {
        proof {
            if f.len() > 0 {
                assert(seqs_of(f@).last() == f@[f.len() - 1]@);
            }
        }
        f.len()
    }
}

/// The index of the first "::" in `s`, if there is one.
fn find_double_colon(s: &Vec<char>) -> (res: Option<usize>)
    ensures
        res is None ==> !has_double_colon(s@),
        res matches Some(p) ==> has_double_colon(s@) && p == first_double_colon(s@) && p + 1 < s@.len(),
{
    if s.len() < 2 {
        return None;
    }
    let mut i: usize = 0;
    while i < s.len() - 1
        invariant
            s.len() >= 2,
            forall|j: int| 0 <= j < i ==> !#[trigger] double_colon_at(s@, j),
        decreases s.len() - i,
    {
        if s[i] == ':' && s[i + 1] == ':' {
            proof {
                let p = i as int;
                assert(double_colon_at(s@, p));
                let q = first_double_colon(s@);
                assert(double_colon_at(s@, q) && forall|j: int| 0 <= j < q ==> !double_colon_at(s@, j));
                if q < p {
                    assert(!double_colon_at(s@, q));
                }
                if p < q {
                    assert(!double_colon_at(s@, p));
                }
            }
            return Some(i);
        }
        i = i + 1;
    }
    proof {
        assert forall|j: int| !double_colon_at(s@, j) by {
            if 0 <= j < i {
            }
        }
    }
    None
}

fn side_fields_exec(s: &Vec<char>) -> (f: Vec<Vec<char>>)
    ensures
        seqs_of(f@) == side_fields(s@),
{
    if s.len() == 0 {
        let f: Vec<Vec<char>> = Vec::new();
        assert(seqs_of(f@) =~= Seq::<Seq<char>>::empty());
        f
    } else {
        split_on(s, ':')
    }
}

fn compressed_ipv6_exec(before: &Vec<char>, after: &Vec<char>) -> (b: bool)
    ensures
        b == compressed_ipv6_ok(before@, after@),
{
    let head = side_fields_exec(before);
    let tail = side_fields_exec(after);
    if !all_groups_exec(&head) {
        return false;
    }
    if tail.len() != 0 && !groups_with_v4_tail_exec(&tail) {
        return false;
    }
    if head.len() > 7 || tail.len() > 7 {
        return false;
    }
    let count = group_count_exec(&tail);
    count <= 7 - head.len()
}

fn full_ipv6_exec(s: &Vec<char>) -> (b: bool)
    ensures
        b == full_ipv6_ok(s@),
{
    let f = split_on(s, ':');
    if f.len() > 8 {
        return false;
    }
    groups_with_v4_tail_exec(&f) && group_count_exec(&f) == 8
}

/// Whether `s` is IPv6 text.
pub fn is_ipv6_chars(s: &Vec<char>) -> (b: bool)
    ensures
        b == is_ipv6_text(s@),
{
    match find_double_colon(s) {
        Some(p) => {
            let n = s.len();
            assert(p + 2 <= n);
            let before = sub_chars(s, 0, p);
            let after = sub_chars(s, p + 2, n);
            proof {
                assert(before@ =~= s@.take(p as int));
                assert(after@ =~= s@.skip(p + 2));
            }
            compressed_ipv6_exec(&before, &after)
        },
        None => full_ipv6_exec(s),
    }
}

/// Whether `s` is the text of an IP address.
pub fn is_ip_chars(s: &Vec<char>) -> (b: bool)
    ensures
        b == is_ip_text(s@),
{
    is_ipv4_chars(s) || is_ipv6_chars(s)
}

} // verus!

verus! {

// ── Laws ──────────────────────────────────────────────────────────

/// A character that may appear in IP address text.
pub open spec fn is_ip_char(c: char) -> bool {
    is_hex_digit(c) || c == '.' || c == ':'
}

/// Every character of every field satisfies `p`.
pub open spec fn fields_all(f: Seq<Seq<char>>, p: spec_fn(char) -> bool) -> bool {
    forall|k: int, j: int| 0 <= k < f.len() && 0 <= j < f[k].len() ==> p(#[trigger] f[k][j])
}

/// A character of text split at `sep` is `sep` or lies in one of the
/// fields.
proof fn lemma_split_chars(s: Seq<char>, sep: char, p: spec_fn(char) -> bool)
    requires
        fields_all(spec_split(s, sep), p),
    ensures
        forall|i: int| 0 <= i < s.len() ==> #[trigger] s[i] == sep || p(s[i]),
    decreases s.len(),
{
    if s.len() > 0 {
        let s2 = s.drop_last();
        let f2 = spec_split(s2, sep);
        crate::text::lemma_split_nonempty(s2, sep);
        let f = spec_split(s, sep);
        if s.last() != sep {
            assert(f == f2.update(f2.len() - 1, f2.last().push(s.last())));
            assert forall|k: int, j: int| 0 <= k < f2.len() && 0 <= j < f2[k].len() implies p(#[trigger] f2[k][j]) by {
                if k == f2.len() - 1 {
                    assert(f[k][j] == f2[k][j]);
                } else {
                    assert(f[k] == f2[k]);
                }
            }
            let last = f.len() - 1;
            assert(f[last][f2.last().len() as int] == s.last());
            assert(p(f[last][f2.last().len() as int]));
        } else {
            assert(f == f2.push(Seq::<char>::empty()));
            assert forall|k: int, j: int| 0 <= k < f2.len() && 0 <= j < f2[k].len() implies p(#[trigger] f2[k][j]) by {
                assert(f[k] == f2[k]);
            }
        }
        lemma_split_chars(s2, sep, p);
        assert forall|i: int| 0 <= i < s.len() implies #[trigger] s[i] == sep || p(s[i]) by {
            if i < s.len() - 1 {
                assert(s[i] == s2[i]);
            } else {
                assert(s[i] == s.last());
            }
        }
    }
}

proof fn lemma_ipv4_chars(s: Seq<char>)
    requires
        is_ipv4_text(s),
    ensures
        forall|i: int| 0 <= i < s.len() ==> is_ip_char(#[trigger] s[i]),
{
    let f = spec_split(s, '.');
    let p = |c: char| is_ip_char(c);
    assert forall|k: int, j: int| 0 <= k < f.len() && 0 <= j < f[k].len() implies p(#[trigger] f[k][j]) by {
        assert(is_dec_octet(f[k]));
        assert(is_dec_digit(f[k][j]));
    }
    lemma_split_chars(s, '.', p);
    assert forall|i: int| 0 <= i < s.len() implies is_ip_char(#[trigger] s[i]) by {
        assert(s[i] == '.' || p(s[i]));
    }
}

proof fn lemma_group_fields_chars(s: Seq<char>)
    requires
        s.len() > 0 ==> (all_groups(spec_split(s, ':')) || groups_with_v4_tail(spec_split(s, ':'))),
    ensures
        forall|i: int| 0 <= i < s.len() ==> is_ip_char(#[trigger] s[i]),
{
    if s.len() > 0 {
        let f = spec_split(s, ':');
        let p = |c: char| is_ip_char(c);
        assert forall|k: int, j: int| 0 <= k < f.len() && 0 <= j < f[k].len() implies p(#[trigger] f[k][j]) by {
            if is_hex_group(f[k]) {
                assert(is_hex_digit(f[k][j]));
            } else {
                assert(k == f.len() - 1);
                assert(is_ipv4_text(f.last()));
                lemma_ipv4_chars(f.last());
                assert(f[k] == f.last());
            }
        }
        lemma_split_chars(s, ':', p);
        assert forall|i: int| 0 <= i < s.len() implies is_ip_char(#[trigger] s[i]) by {
            assert(s[i] == ':' || p(s[i]));
        }
    }
}

proof fn lemma_first_double_colon_exists(s: Seq<char>, i: int)
    requires
        double_colon_at(s, i),
    ensures
        exists|k: int| double_colon_at(s, k) && forall|j: int| 0 <= j < k ==> !double_colon_at(s, j),
    decreases i,
{
    if exists|j: int| 0 <= j < i && double_colon_at(s, j) {
        let j = choose|j: int| 0 <= j < i && double_colon_at(s, j);
        lemma_first_double_colon_exists(s, j);
    } else {
        assert(forall|j: int| 0 <= j < i ==> !double_colon_at(s, j));
    }
}

proof fn lemma_compressed_chars(s: Seq<char>, p: int)
    requires
        double_colon_at(s, p),
        compressed_ipv6_ok(s.take(p), s.skip(p + 2)),
    ensures
        forall|i: int| 0 <= i < s.len() ==> is_ip_char(#[trigger] s[i]),
{
    let before = s.take(p);
    let after = s.skip(p + 2);
    lemma_group_fields_chars(before);
    lemma_group_fields_chars(after);
    assert forall|i: int| 0 <= i < s.len() implies is_ip_char(#[trigger] s[i]) by {
        if i < p {
            assert(s[i] == before[i]);
            assert(is_ip_char(before[i]));
        } else if i >= p + 2 {
            assert(s[i] == after[i - p - 2]);
            assert(is_ip_char(after[i - p - 2]));
        }
    }
}

/// Text that parses as an IP address consists of hexadecimal digits, '.'
/// and ':' only.
pub proof fn law_ip_text_chars(s: Seq<char>)
    requires
        is_ip_text(s),
    ensures
        forall|i: int| 0 <= i < s.len() ==> is_ip_char(#[trigger] s[i]),
{
    if is_ipv4_text(s) {
        lemma_ipv4_chars(s);
    } else if has_double_colon(s) {
        let i = choose|i: int| double_colon_at(s, i);
        lemma_first_double_colon_exists(s, i);
        let p = first_double_colon(s);
        lemma_compressed_chars(s, p);
    } else {
        lemma_group_fields_chars(s);
    }
}

} // verus!

verus! {

// ── Laws of IP address text ───────────────────────────────────────

/// The fields `g` joined with `sep` between them.
pub open spec fn sep_join(g: Seq<Seq<char>>, sep: char) -> Seq<char>
    decreases g.len(),
{
    if g.len() == 0 {
        Seq::empty()
    } else if g.len() == 1 {
        g[0]
    } else {
        sep_join(g.drop_last(), sep) + seq![sep] + g.last()
    }
}

proof fn lemma_split_single(w: Seq<char>, sep: char)
    requires
        forall|j: int| 0 <= j < w.len() ==> w[j] != sep,
    ensures
        spec_split(w, sep) == seq![w],
{
    let empty = Seq::<char>::empty();
    lemma_split_no_sep(empty, w, sep);
    assert(empty + w =~= w);
    assert(spec_split(empty, sep) =~= seq![empty]);
    assert(seq![empty].update(0, empty + w) =~= seq![w]);
}

/// Fields joined with a separator that none of them holds split back into
/// those fields; with non-empty fields the text never holds the separator
/// twice in a row, nor ends with it.
proof fn lemma_sep_join(g: Seq<Seq<char>>, sep: char)
    requires
        g.len() >= 1,
        forall|i: int| 0 <= i < g.len() ==> (#[trigger] g[i]).len() >= 1,
        forall|i: int, j: int| 0 <= i < g.len() && 0 <= j < g[i].len() ==> #[trigger] g[i][j] != sep,
    ensures
        spec_split(sep_join(g, sep), sep) == g,
        sep_join(g, sep).len() > 0,
        sep_join(g, sep).last() != sep,
        forall|i: int|
            0 <= i && i + 1 < sep_join(g, sep).len() ==> !(#[trigger] sep_join(g, sep)[i] == sep && sep_join(
                g,
                sep,
            )[i + 1] == sep),
    decreases g.len(),
{
    let s = sep_join(g, sep);
    if g.len() == 1 {
        assert(s == g[0]);
        assert forall|j: int| 0 <= j < s.len() implies s[j] != sep by {
            assert(g[0][j] != sep);
        }
        lemma_split_single(s, sep);
        assert(seq![g[0]] =~= g);
        assert(s.last() == g[0][g[0].len() - 1]);
    } else {
        let dl = g.drop_last();
        let w = g.last();
        assert(w == g[g.len() - 1]);
        assert forall|i: int| 0 <= i < dl.len() implies (#[trigger] dl[i]).len() >= 1 by {
            assert(dl[i] == g[i]);
        }
        assert forall|i: int, j: int| 0 <= i < dl.len() && 0 <= j < dl[i].len() implies #[trigger] dl[i][j] != sep by {
            assert(dl[i] == g[i]);
            assert(g[i][j] != sep);
        }
        lemma_sep_join(dl, sep);
        let p = sep_join(dl, sep);
        assert forall|j: int| 0 <= j < w.len() implies w[j] != sep by {
            assert(g[g.len() - 1][j] != sep);
        }
        let pc = p + seq![sep];
        assert(pc.drop_last() =~= p);
        assert(pc.last() == sep);
        assert(spec_split(pc, sep) == spec_split(p, sep).push(Seq::<char>::empty()));
        lemma_split_no_sep(pc, w, sep);
        assert(s == pc + w);
        let r = spec_split(pc, sep);
        assert(r.update(r.len() - 1, r.last() + w) =~= g) by {
            assert(Seq::<char>::empty() + w =~= w);
            assert(dl.push(w) =~= g);
        }
        assert(s.last() == w[w.len() - 1]);
        assert forall|i: int| 0 <= i && i + 1 < s.len() implies !(#[trigger] s[i] == sep && s[i + 1] == sep) by {
            if i + 1 < p.len() {
                assert(s[i] == p[i] && s[i + 1] == p[i + 1]);
            } else if i + 1 == p.len() {
                assert(s[i] == p[p.len() - 1]);
            } else if i == p.len() {
                assert(s[i + 1] == w[0]);
            } else {
                assert(s[i] == w[i - p.len() - 1]);
            }
        }
    }
}

/// Eight groups of one to four hexadecimal digits each, leading zeros
/// included, joined by ':' make IP address text (as `IpAddr`'s parser
/// accepts "2001:0db8:85a3:0000:0000:8a2e:0370:7334").
pub proof fn law_eight_hex_groups_are_ip_text(g: Seq<Seq<char>>)
    requires
        g.len() == 8,
        forall|i: int| 0 <= i < 8 ==> 1 <= (#[trigger] g[i]).len() <= 4,
        forall|i: int, j: int| 0 <= i < 8 && 0 <= j < g[i].len() ==> is_hex_digit(#[trigger] g[i][j]),
    ensures
        is_ip_text(sep_join(g, ':')),
        is_ipv6_text(sep_join(g, ':')),
{
    assert forall|i: int, j: int| 0 <= i < g.len() && 0 <= j < g[i].len() implies #[trigger] g[i][j] != ':' by {
        assert(is_hex_digit(g[i][j]));
    }
    lemma_sep_join(g, ':');
    let s = sep_join(g, ':');
    assert forall|i: int| !#[trigger] double_colon_at(s, i) by {
        if 0 <= i && i + 1 < s.len() {
            assert(!(s[i] == ':' && s[i + 1] == ':'));
        }
    }
    assert(!has_double_colon(s));
    assert forall|i: int| 0 <= i < g.len() implies #[trigger] is_hex_group(g[i]) by {
        assert forall|j: int| 0 <= j < g[i].len() implies #[trigger] is_hex_digit(g[i][j]) by {}
    }
    let last = g.last();
    assert(last == g[7]);
    assert forall|j: int| 0 <= j < last.len() implies last[j] != '.' by {
        assert(is_hex_digit(g[7][j]));
    }
    lemma_split_single(last, '.');
    assert(!is_ipv4_text(last));
    assert(groups_with_v4_tail(g));
    assert(group_count(g) == 8);
}

proof fn lemma_decimal_octet(n: nat)
    requires
        n <= 255,
    ensures
        is_dec_octet(crate::text::decimal(n)),
        dec_value(crate::text::decimal(n)) == n,
{
    let d = crate::text::decimal(n);
    reveal_with_fuel(dec_value, 4);
    assert(('0' as u32) == 48);
    if n < 10 {
        assert(d == seq![crate::text::digit_char(n)]);
        assert(d.drop_last() =~= Seq::<char>::empty());
        assert((crate::text::digit_char(n) as u32) == n + 48);
        assert(d[0] == crate::text::digit_char(n));
        assert(is_dec_digit(d[0]));
        assert(dec_value(Seq::<char>::empty()) == 0);
        assert(dec_value(d) == n);
    } else if n < 100 {
        let hi = (n / 10) as nat;
        let lo = (n % 10) as nat;
        let dh = crate::text::decimal(hi);
        assert(dh == seq![crate::text::digit_char(hi)]);
        assert(d == dh.push(crate::text::digit_char(lo)));
        assert(d.drop_last() =~= dh);
        assert(dh.drop_last() =~= Seq::<char>::empty());
        assert((crate::text::digit_char(hi) as u32) == hi + 48);
        assert((crate::text::digit_char(lo) as u32) == lo + 48);
        assert(d[0] == crate::text::digit_char(hi));
        assert(d[1] == crate::text::digit_char(lo));
        assert(is_dec_digit(d[0]) && is_dec_digit(d[1]));
        assert(d[0] != '0');
        assert(dec_value(dh) == hi);
        assert(dec_value(d) == hi * 10 + lo);
    } else {
        let top = (n / 100) as nat;
        let mid = ((n / 10) % 10) as nat;
        let lo = (n % 10) as nat;
        let d2 = crate::text::decimal((n / 10) as nat);
        let d1 = crate::text::decimal(top);
        assert(((n / 10) as nat) / 10 == top);
        assert(d1 == seq![crate::text::digit_char(top)]);
        assert(d2 == d1.push(crate::text::digit_char(mid)));
        assert(d == d2.push(crate::text::digit_char(lo)));
        assert(d.drop_last() =~= d2);
        assert(d2.drop_last() =~= d1);
        assert(d1.drop_last() =~= Seq::<char>::empty());
        assert((crate::text::digit_char(top) as u32) == top + 48);
        assert((crate::text::digit_char(mid) as u32) == mid + 48);
        assert((crate::text::digit_char(lo) as u32) == lo + 48);
        assert(d[0] == crate::text::digit_char(top));
        assert(d[1] == crate::text::digit_char(mid));
        assert(d[2] == crate::text::digit_char(lo));
        assert(is_dec_digit(d[0]) && is_dec_digit(d[1]) && is_dec_digit(d[2]));
        assert(d[0] != '0');
        assert(dec_value(d1) == top);
        assert(dec_value(d2) == top * 10 + mid);
        assert(dec_value(d) == (top * 10 + mid) * 10 + lo);
    }
}

/// The decimal numerals of four numbers up to 255 (without leading
/// zeros) joined by '.' make IP address text, such as "192.168.0.1".
pub proof fn law_dotted_quad_is_ip_text(a: u8, b: u8, c: u8, d: u8)
    ensures
        is_ip_text(
            sep_join(
                seq![
                    crate::text::decimal(a as nat),
                    crate::text::decimal(b as nat),
                    crate::text::decimal(c as nat),
                    crate::text::decimal(d as nat),
                ],
                '.',
            ),
        ),
{
    let g = seq![
        crate::text::decimal(a as nat),
        crate::text::decimal(b as nat),
        crate::text::decimal(c as nat),
        crate::text::decimal(d as nat),
    ];
    lemma_decimal_octet(a as nat);
    lemma_decimal_octet(b as nat);
    lemma_decimal_octet(c as nat);
    lemma_decimal_octet(d as nat);
    assert forall|i: int| 0 <= i < g.len() implies (#[trigger] g[i]).len() >= 1 && is_dec_octet(g[i]) by {}
    assert forall|i: int, j: int| 0 <= i < g.len() && 0 <= j < g[i].len() implies #[trigger] g[i][j] != '.' by {
        assert(is_dec_octet(g[i]));
        assert(is_dec_digit(g[i][j]));
    }
    lemma_sep_join(g, '.');
}


/// Groups `h` before a "::" and groups `t` after it, of one to four
/// hexadecimal digits each, leading zeros included, standing for at most
/// seven groups together, make IP address text (as "fe80::1", "::1",
/// "2001:db8::" and "::" are).
pub proof fn law_compressed_groups_are_ip_text(h: Seq<Seq<char>>, t: Seq<Seq<char>>)
    requires
        h.len() + t.len() <= 7,
        forall|i: int| 0 <= i < h.len() ==> 1 <= (#[trigger] h[i]).len() <= 4,
        forall|i: int, j: int| 0 <= i < h.len() && 0 <= j < h[i].len() ==> is_hex_digit(#[trigger] h[i][j]),
        forall|i: int| 0 <= i < t.len() ==> 1 <= (#[trigger] t[i]).len() <= 4,
        forall|i: int, j: int| 0 <= i < t.len() && 0 <= j < t[i].len() ==> is_hex_digit(#[trigger] t[i][j]),
    ensures
        is_ip_text(sep_join(h, ':') + seq![':', ':'] + sep_join(t, ':')),
{
    let a = sep_join(h, ':');
    let b = sep_join(t, ':');
    let s = a + seq![':', ':'] + b;
    let p = a.len() as int;
    if h.len() > 0 {
        assert forall|i: int, j: int| 0 <= i < h.len() && 0 <= j < h[i].len() implies #[trigger] h[i][j] != ':' by {
            assert(is_hex_digit(h[i][j]));
        }
        lemma_sep_join(h, ':');
    } else {
        assert(a =~= Seq::<char>::empty());
    }
    if t.len() > 0 {
        assert forall|i: int, j: int| 0 <= i < t.len() && 0 <= j < t[i].len() implies #[trigger] t[i][j] != ':' by {
            assert(is_hex_digit(t[i][j]));
        }
        lemma_sep_join(t, ':');
    } else {
        assert(b =~= Seq::<char>::empty());
    }
    assert(s[p] == ':' && s[p + 1] == ':');
    assert(double_colon_at(s, p));
    assert forall|j: int| 0 <= j < p implies !#[trigger] double_colon_at(s, j) by {
        if j + 1 < p {
            assert(s[j] == a[j] && s[j + 1] == a[j + 1]);
        } else {
            assert(s[j] == a[a.len() - 1]);
        }
    }
    let q = first_double_colon(s);
    assert(double_colon_at(s, q) && forall|j: int| 0 <= j < q ==> !double_colon_at(s, j));
    if q < p {
        assert(!double_colon_at(s, q));
    }
    if q > p {
        assert(!double_colon_at(s, p));
    }
    assert(q == p);
    assert(s.take(p) =~= a);
    assert(s.skip(p + 2) =~= b);
    assert(has_double_colon(s));
    assert forall|i: int| 0 <= i < h.len() implies #[trigger] is_hex_group(h[i]) by {
        assert forall|j: int| 0 <= j < h[i].len() implies #[trigger] is_hex_digit(h[i][j]) by {}
    }
    assert forall|i: int| 0 <= i < t.len() implies #[trigger] is_hex_group(t[i]) by {
        assert forall|j: int| 0 <= j < t[i].len() implies #[trigger] is_hex_digit(t[i][j]) by {}
    }
    if h.len() == 0 {
        assert(side_fields(a) =~= Seq::<Seq<char>>::empty());
    }
    assert(side_fields(a) == h);
    if t.len() == 0 {
        assert(side_fields(b) =~= Seq::<Seq<char>>::empty());
    } else {
        assert(side_fields(b) == t);
        let last = t.last();
        assert(last == t[t.len() - 1]);
        assert forall|j: int| 0 <= j < last.len() implies last[j] != '.' by {
            assert(is_hex_digit(t[t.len() - 1][j]));
        }
        lemma_split_single(last, '.');
        assert(!is_ipv4_text(last));
        assert(groups_with_v4_tail(t));
        assert(group_count(t) == t.len());
    }
    assert(compressed_ipv6_ok(s.take(p), s.skip(p + 2)));
    assert(is_ipv6_text(s));
}


/// The decimal numeral of any number is made of decimal digits, has no
/// leading zero (unless the number is 0) and denotes the number.
pub proof fn law_decimal_numeral(n: nat)
    ensures
        crate::text::decimal(n).len() >= 1,
        all_dec(crate::text::decimal(n)),
        dec_value(crate::text::decimal(n)) == n,
        n > 0 ==> crate::text::decimal(n)[0] != '0',
    decreases n,
{
    let d = crate::text::decimal(n);
    assert(('0' as u32) == 48);
    if n < 10 {
        assert(d == seq![crate::text::digit_char(n)]);
        assert(d.drop_last() =~= Seq::<char>::empty());
        assert((crate::text::digit_char(n) as u32) == n + 48);
        assert(d[0] == crate::text::digit_char(n));
        assert(d.last() == crate::text::digit_char(n));
        assert(is_dec_digit(d[0]));
        assert(dec_value(Seq::<char>::empty()) == 0);
        assert(dec_value(d) == dec_value(d.drop_last()) * 10 + ((d.last() as u32) - ('0' as u32)) as nat);
    } else {
        let hi = (n / 10) as nat;
        let lo = (n % 10) as nat;
        law_decimal_numeral(hi);
        let dh = crate::text::decimal(hi);
        assert(d == dh.push(crate::text::digit_char(lo)));
        assert(d.drop_last() =~= dh);
        assert((crate::text::digit_char(lo) as u32) == lo + 48);
        assert(d.last() == crate::text::digit_char(lo));
        assert forall|i: int| 0 <= i < d.len() implies #[trigger] is_dec_digit(d[i]) by {
            if i < dh.len() {
                assert(d[i] == dh[i]);
            }
        }
        assert(d[0] == dh[0]);
        assert(dec_value(d) == dec_value(dh) * 10 + lo);
        assert(hi * 10 + lo == n);
    }
}


/// Four non-empty fields without '.' joined by '.' make IPv4 text exactly
/// when every field has one to three decimal digits, no leading zero
/// unless it is the single digit 0, and a value of at most 255: so
/// "256.1.1.1" and "01.2.3.4" are refused.
pub proof fn law_dotted_quad_rules(g: Seq<Seq<char>>)
    requires
        g.len() == 4,
        forall|i: int| 0 <= i < 4 ==> (#[trigger] g[i]).len() >= 1,
        forall|i: int, j: int| 0 <= i < 4 && 0 <= j < g[i].len() ==> #[trigger] g[i][j] != '.',
    ensures
        is_ipv4_text(sep_join(g, '.')) <==> forall|i: int|
            0 <= i < 4 ==> {
                let f = #[trigger] g[i];
                &&& 1 <= f.len() <= 3
                &&& forall|j: int| 0 <= j < f.len() ==> '0' <= #[trigger] f[j] <= '9'
                &&& (f.len() == 1 || f[0] != '0')
                &&& dec_value(f) <= 255
            },
{
    lemma_sep_join(g, '.');
    let f = spec_split(sep_join(g, '.'), '.');
    assert(f == g);
    assert forall|i: int| 0 <= i < 4 implies (is_dec_octet(#[trigger] g[i]) <==> {
        let f = g[i];
        &&& 1 <= f.len() <= 3
        &&& forall|j: int| 0 <= j < f.len() ==> '0' <= #[trigger] f[j] <= '9'
        &&& (f.len() == 1 || f[0] != '0')
        &&& dec_value(f) <= 255
    }) by {
        if forall|j: int| 0 <= j < g[i].len() ==> '0' <= #[trigger] g[i][j] <= '9' {
            assert forall|j: int| 0 <= j < g[i].len() implies #[trigger] is_dec_digit(g[i][j]) by {}
        }
        if all_dec(g[i]) {
            assert forall|j: int| 0 <= j < g[i].len() implies '0' <= #[trigger] g[i][j] <= '9' by {
                assert(is_dec_digit(g[i][j]));
            }
        }
    }
}

} // verus!
