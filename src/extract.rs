//! Pulls the targets of `href="..."` attributes out of HTML text.
use vstd::prelude::*;
use vstd::std_specs::iter::IteratorSpec;
use vstd::string::StrSliceExecFns;

verus! {

broadcast use vstd::string::group_string_axioms;

/// The whitespace of HTML: space, tab, line feed, carriage return and form feed.
pub open spec fn is_space(c: char) -> bool {
    c == ' ' || c == '\t' || c == '\n' || c == '\r' || c == '\x0C'
}

/// The first position at or after `q` that holds no whitespace, or the length of `s`.
pub open spec fn skip_space(s: Seq<char>, q: int) -> int
    decreases s.len() - q,
{
    if 0 <= q < s.len() && is_space(s[q]) {
        skip_space(s, q + 1)
    } else {
        q
    }
}

proof fn lemma_skip_space_bounds(s: Seq<char>, q: int)
    ensures
        q <= skip_space(s, q),
        0 <= q <= s.len() ==> skip_space(s, q) <= s.len(),
    decreases s.len() - q,
{
    if 0 <= q < s.len() && is_space(s[q]) {
        lemma_skip_space_bounds(s, q + 1);
    }
}

/// Where `=` stands in an attribute `href` that starts at `p`.
pub open spec fn eq_pos(s: Seq<char>, p: int) -> int {
    skip_space(s, p + 4)
}

/// Where the opening quote stands in an attribute `href` that starts at `p`.
pub open spec fn open_quote_pos(s: Seq<char>, p: int) -> int {
    skip_space(s, eq_pos(s, p) + 1)
}

/// Where the value of an attribute `href` that starts at `p` begins.
pub open spec fn value_start(s: Seq<char>, p: int) -> int {
    open_quote_pos(s, p) + 1
}

/// The first position at or after `i` that holds `"`, or the length of `s` if none does.
pub open spec fn quote_from(s: Seq<char>, i: int) -> int
    decreases s.len() - i,
{
    if i < 0 || i >= s.len() {
        s.len() as int
    } else if s[i] == '"' {
        i
    } else {
        quote_from(s, i + 1)
    }
}

/// Where the value of an attribute `href` that starts at `p` ends (its closing quote).
pub open spec fn value_end(s: Seq<char>, p: int) -> int {
    quote_from(s, value_start(s, p))
}

/// `href`, optional whitespace, `=`, optional whitespace and a quoted value of at
/// least one character start at `p`.
pub open spec fn href_at(s: Seq<char>, p: int) -> bool {
    &&& 0 <= p
    &&& p + 4 <= s.len()
    &&& s[p] == 'h' && s[p + 1] == 'r' && s[p + 2] == 'e' && s[p + 3] == 'f'
    &&& eq_pos(s, p) < s.len() && s[eq_pos(s, p)] == '='
    &&& open_quote_pos(s, p) < s.len() && s[open_quote_pos(s, p)] == '"'
    &&& value_start(s, p) < value_end(s, p) < s.len()
}

/// The quoted values of the attributes `href` found from `p` on, leftmost first; a
/// search goes on after the closing quote of the attribute it found.
pub open spec fn hrefs_from(s: Seq<char>, p: int) -> Seq<Seq<char>>
    decreases s.len() - p,
    via hrefs_from_decreases
{
    if p < 0 || p >= s.len() {
        seq![]
    } else if href_at(s, p) {
        seq![s.subrange(value_start(s, p), value_end(s, p))] + hrefs_from(s, value_end(s, p) + 1)
    } else {
        hrefs_from(s, p + 1)
    }
}

proof fn lemma_href_bounds(s: Seq<char>, p: int)
    requires
        href_at(s, p),
    ensures
        p + 4 <= eq_pos(s, p) < open_quote_pos(s, p) < value_start(s, p) < value_end(s, p) < s.len(),
{
    lemma_skip_space_bounds(s, p + 4);
    lemma_skip_space_bounds(s, eq_pos(s, p) + 1);
}

#[via_fn]
proof fn hrefs_from_decreases(s: Seq<char>, p: int) {
    if 0 <= p < s.len() && href_at(s, p) {
        lemma_href_bounds(s, p);
    }
}

/// The quoted values of all the attributes `href` in `s`.
pub open spec fn hrefs(s: Seq<char>) -> Seq<Seq<char>> {
    hrefs_from(s, 0)
}

/// Whether `c` is whitespace.
fn is_space_char(c: char) -> (r: bool)
    ensures
        r == is_space(c),
{
    c == ' ' || c == '\t' || c == '\n' || c == '\r' || c == '\x0C'
}

/// The first position at or after `q` that holds no whitespace, or the length of `s`.
fn skip_space_at(s: &Vec<char>, q: usize) -> (r: usize)
    requires
        q <= s@.len(),
    ensures
        r == skip_space(s@, q as int),
        q <= r <= s@.len(),
{
    let mut j = q;
    while j < s.len() && is_space_char(s[j])
        invariant
            q <= j <= s@.len(),
            skip_space(s@, q as int) == skip_space(s@, j as int),
        decreases s@.len() - j,
    {
        j = j + 1;
    }
    j
}

/// The first position at or after `i` that holds `"`, or the length of `s`.
fn find_quote(s: &Vec<char>, i: usize) -> (r: usize)
    requires
        i <= s@.len(),
    ensures
        r == quote_from(s@, i as int),
{
    let mut j = i;
    while j < s.len() && s[j] != '"'
        invariant
            i <= j <= s@.len(),
            quote_from(s@, i as int) == quote_from(s@, j as int),
        decreases s@.len() - j,
    {
        j = j + 1;
    }
    j
}

/// The bounds of the value of an attribute `href` that starts at `p`, if one does.
fn href_value_at(s: &Vec<char>, p: usize) -> (r: Option<(usize, usize)>)
    requires
        p < s@.len(),
    ensures
        r is Some <==> href_at(s@, p as int),
        r matches Some((a, b)) ==> a == value_start(s@, p as int) && b == value_end(s@, p as int),
{
    if s.len() - p < 4 {
        return None;
    }
    if !(s[p] == 'h' && s[p + 1] == 'r' && s[p + 2] == 'e' && s[p + 3] == 'f') {
        return None;
    }
    let e = skip_space_at(s, p + 4);
    if e >= s.len() || s[e] != '=' {
        return None;
    }
    let q = skip_space_at(s, e + 1);
    if q >= s.len() || s[q] != '"' {
        return None;
    }
    let a = q + 1;
    let b = find_quote(s, a);
    if a < b && b < s.len() {
        Some((a, b))
    } else {
        None
    }
}

/// The characters of `s`, one by one.
fn chars_of(s: &str) -> (r: Vec<char>)
    ensures
        r@ == s@,
{
    let mut out: Vec<char> = Vec::new();
    for c in it: s.chars()
        invariant
            out@ == it.seq().subrange(0, it.index()),
    {
        out.push(c);
    }
    assert(out@ =~= s@);
    out
}

/// The views of the strings in `v`.
pub open spec fn views(v: Seq<String>) -> Seq<Seq<char>> {
    v.map_values(|x: String| x@)
}

/// Returns the quoted value of every `href="..."` attribute in `s`, in order, as
/// written: any whitespace may stand on either side of `=`, and the value holds at
/// least one character.
pub fn href_values(s: &str) -> (r: Vec<String>)
    ensures
        views(r@) == hrefs(s@),
{
    let cs = chars_of(s);
    let mut out: Vec<String> = Vec::new();
    let mut i: usize = 0;
    while i < cs.len()
        invariant
            cs@ == s@,
            i <= cs@.len(),
            hrefs(s@) == views(out@) + hrefs_from(s@, i as int),
        decreases cs@.len() - i,
    {
        match href_value_at(&cs, i) {
            Some((a, b)) => {
                let v = s.substring_char(a, b).to_owned();
                proof {
                    lemma_href_bounds(s@, i as int);
                    assert(views(out@.push(v)) =~= views(out@).push(v@));
                    assert(seq![v@] + hrefs_from(s@, b + 1) =~= seq![v@].add(hrefs_from(s@, b + 1)));
                    assert(views(out@) + (seq![v@] + hrefs_from(s@, b + 1))
                        =~= views(out@).push(v@) + hrefs_from(s@, b + 1));
                }
                out.push(v);
                i = b + 1;
            },
            None => {
                i = i + 1;
            },
        }
    }
    assert(views(out@) + hrefs_from(s@, i as int) =~= views(out@));
    out
}

/// What decoding the character references of HTML (`&#x2F;`, `&amp;`, ...) turns `s` into.
pub uninterp spec fn decoded(s: Seq<char>) -> Seq<char>;

/// Relies on `html_escape::decode_html_entities`: the result depends on the text
/// alone, and a text without `&` holds no reference and comes back as it is.
#[verifier::external_body]
fn decode_entities(s: &str) -> (r: String)
    ensures
        r@ == decoded(s@),
        !s@.contains('&') ==> r@ == s@,
{
    html_escape::decode_html_entities(s).into_owned()
}

/// A link to a place in the same page: one that starts with `#`.
pub open spec fn is_fragment(v: Seq<char>) -> bool {
    v.len() > 0 && v[0] == '#'
}

/// Tells whether `v` is a link to a place in the same page.
pub fn is_fragment_link(v: &str) -> (r: bool)
    ensures
        r == is_fragment(v@),
{
    !v.is_empty() && v.get_char(0) == '#'
}

/// `s` with every repeat of an earlier element left out.
pub open spec fn dedup(s: Seq<Seq<char>>) -> Seq<Seq<char>>
    decreases s.len(),
{
    if s.len() == 0 {
        seq![]
    } else if dedup(s.drop_last()).contains(s.last()) {
        dedup(s.drop_last())
    } else {
        dedup(s.drop_last()).push(s.last())
    }
}

/// Whether `v` holds a string equal to `x`.
fn contains_string(v: &Vec<String>, x: &String) -> (r: bool)
    ensures
        r == views(v@).contains(x@),
{
    let mut i: usize = 0;
    while i < v.len()
        invariant
            i <= v@.len(),
            forall|j: int| 0 <= j < i ==> v@[j]@ != x@,
        decreases v@.len() - i,
    {
        if v[i] == *x {
            assert(views(v@)[i as int] == x@);
            return true;
        }
        i = i + 1;
    }
    proof {
        if views(v@).contains(x@) {
            let k = choose|k: int| 0 <= k < views(v@).len() && views(v@)[k] == x@;
            assert(v@[k]@ == x@);
        }
    }
    false
}

/// Keeps the first occurrence of each link, in the order in which they came.
pub fn dedup_links(v: Vec<String>) -> (r: Vec<String>)
    ensures
        views(r@) == dedup(views(v@)),
{
    let mut out: Vec<String> = Vec::new();
    let mut i: usize = 0;
    while i < v.len()
        invariant
            i <= v@.len(),
            views(out@) == dedup(views(v@).take(i as int)),
        decreases v@.len() - i,
    {
        let x = v[i].clone();
        assert(views(v@).take(i + 1).drop_last() =~= views(v@).take(i as int));
        assert(views(v@).take(i + 1).last() == x@);
        if !contains_string(&out, &x) {
            assert(views(out@.push(x)) =~= views(out@).push(x@));
            out.push(x);
        }
        i = i + 1;
    }
    assert(views(v@).take(v@.len() as int) =~= views(v@));
    out
}

/// The values in `vs` that are no fragment links, each decoded.
pub open spec fn targets(vs: Seq<Seq<char>>) -> Seq<Seq<char>>
    decreases vs.len(),
{
    if vs.len() == 0 {
        seq![]
    } else if is_fragment(vs.last()) {
        targets(vs.drop_last())
    } else {
        targets(vs.drop_last()).push(decoded(vs.last()))
    }
}

/// The links of the HTML text `s`: the decoded values of its attributes `href`,
/// without fragment links and without repeats.
pub open spec fn links_of(s: Seq<char>) -> Seq<Seq<char>> {
    dedup(targets(hrefs(s)))
}

/// A value without `&` that is no fragment link is kept as written.
pub open spec fn kept_as_written(vs: Seq<Seq<char>>, found: Seq<Seq<char>>) -> bool {
    forall|v: Seq<char>|
        #![trigger vs.contains(v)]
        vs.contains(v) && !is_fragment(v) && !v.contains('&') ==> found.contains(v)
}

/// Finds the links of the HTML text `s`, each once, fragment links left out.
pub fn find_links(s: &str) -> (r: Vec<String>)
    ensures
        views(r@) == links_of(s@),
        kept_as_written(hrefs(s@), views(r@)),
{
    let raw = href_values(s);
    let mut found: Vec<String> = Vec::new();
    let mut i: usize = 0;
    while i < raw.len()
        invariant
            i <= raw@.len(),
            views(raw@) == hrefs(s@),
            views(found@) == targets(views(raw@).take(i as int)),
            kept_as_written(views(raw@).take(i as int), views(found@)),
        decreases raw@.len() - i,
    {
        let v = &raw[i];
        let ghost before = views(found@);
        assert(views(raw@).take(i + 1).drop_last() =~= views(raw@).take(i as int));
        assert(views(raw@).take(i + 1).last() == v@);
        if !is_fragment_link(v.as_str()) {
            let d = decode_entities(v.as_str());
            assert(views(found@.push(d)) =~= views(found@).push(d@));
            found.push(d);
            assert(views(found@)[before.len() as int] == d@);
            assert forall|x: Seq<char>| before.contains(x) implies views(found@).contains(x) by {
                let k = choose|k: int| 0 <= k < before.len() && before[k] == x;
                assert(views(found@)[k] == x);
            }
            assert(!v@.contains('&') ==> views(found@).contains(v@));
        }
        assert(is_fragment(v@) || v@.contains('&') || views(found@).contains(v@));
        assert(forall|x: Seq<char>| before.contains(x) ==> views(found@).contains(x));
        assert forall|x: Seq<char>|
            #![trigger views(raw@).take(i + 1).contains(x)]
            views(raw@).take(i + 1).contains(x) && !is_fragment(x) && !x.contains('&')
                implies views(found@).contains(x) by {
            let t = views(raw@).take(i + 1);
            let k = choose|k: int| 0 <= k < t.len() && #[trigger] t[k] == x;
            if k < i {
                assert(views(raw@).take(i as int)[k] == x);
                assert(views(raw@).take(i as int).contains(x));
                assert(before.contains(x));
            } else {
                assert(x == v@);
            }
        }
        i = i + 1;
    }
    assert(views(raw@).take(raw@.len() as int) =~= views(raw@));
    proof {
        lemma_dedup_members(views(found@));
    }
    dedup_links(found)
}

} // verus!

verus! {

proof fn lemma_dedup_members(s: Seq<Seq<char>>)
    ensures
        forall|x: Seq<char>| #[trigger] dedup(s).contains(x) <==> s.contains(x),
    decreases s.len(),
{
    if s.len() > 0 {
        let init = s.drop_last();
        let last = s.last();
        let d = dedup(init);
        lemma_dedup_members(init);
        assert(s[s.len() - 1] == last);
        assert forall|x: Seq<char>| #[trigger] dedup(s).contains(x) <==> s.contains(x) by {
            if s.contains(x) && x != last {
                let k = choose|k: int| 0 <= k < s.len() && s[k] == x;
                assert(init[k] == x);
            }
            if init.contains(x) {
                let k = choose|k: int| 0 <= k < init.len() && init[k] == x;
                assert(s[k] == x);
            }
            if !d.contains(last) {
                assert(d.push(last)[d.len() as int] == last);
                if d.push(last).contains(x) && x != last {
                    let k = choose|k: int| 0 <= k < d.push(last).len() && d.push(last)[k] == x;
                    assert(d[k] == x);
                }
                if d.contains(x) {
                    let k = choose|k: int| 0 <= k < d.len() && d[k] == x;
                    assert(d.push(last)[k] == x);
                }
            }
        }
    }
}

proof fn lemma_dedup_no_duplicates(s: Seq<Seq<char>>)
    ensures
        dedup(s).no_duplicates(),
    decreases s.len(),
{
    if s.len() > 0 {
        lemma_dedup_no_duplicates(s.drop_last());
        let d = dedup(s.drop_last());
        if !d.contains(s.last()) {
            assert forall|i: int, j: int| 0 <= i < d.push(s.last()).len() && 0 <= j < d.push(
                s.last(),
            ).len() && i != j implies d.push(s.last())[i] != d.push(s.last())[j] by {
                if i == d.len() {
                    assert(d.contains(d[j]));
                } else if j == d.len() {
                    assert(d.contains(d[i]));
                }
            }
        }
    }
}

/// Some element of `vs` that is no fragment link decodes to `l`.
pub open spec fn decodes_to(vs: Seq<Seq<char>>, l: Seq<char>) -> bool {
    exists|v: Seq<char>| vs.contains(v) && !is_fragment(v) && decoded(v) == l
}

proof fn lemma_targets_members(vs: Seq<Seq<char>>)
    ensures
        forall|l: Seq<char>| #[trigger] targets(vs).contains(l) <==> decodes_to(vs, l),
    decreases vs.len(),
{
    if vs.len() > 0 {
        let init = vs.drop_last();
        let last = vs.last();
        let t = targets(init);
        lemma_targets_members(init);
        assert(vs[vs.len() - 1] == last);
        assert forall|l: Seq<char>| #[trigger] targets(vs).contains(l) <==> decodes_to(vs, l) by {
            if decodes_to(init, l) {
                let v = choose|v: Seq<char>| init.contains(v) && !is_fragment(v) && decoded(v) == l;
                let k = choose|k: int| 0 <= k < init.len() && init[k] == v;
                assert(vs[k] == v);
            }
            if decodes_to(vs, l) {
                let v = choose|v: Seq<char>| vs.contains(v) && !is_fragment(v) && decoded(v) == l;
                let k = choose|k: int| 0 <= k < vs.len() && vs[k] == v;
                if k < vs.len() - 1 {
                    assert(init[k] == v);
                }
            }
            if !is_fragment(last) {
                let l2 = decoded(last);
                assert(t.push(l2)[t.len() as int] == l2);
                if t.push(l2).contains(l) && l != l2 {
                    let k = choose|k: int| 0 <= k < t.push(l2).len() && t.push(l2)[k] == l;
                    assert(t[k] == l);
                }
                if t.contains(l) {
                    let k = choose|k: int| 0 <= k < t.len() && t[k] == l;
                    assert(t.push(l2)[k] == l);
                }
            }
        }
    }
}

/// `v` is the value of an attribute `href` that starts at or after `i`.
pub open spec fn value_from(s: Seq<char>, i: int, v: Seq<char>) -> bool {
    exists|p: int| i <= p && href_at(s, p) && v == s.subrange(value_start(s, p), value_end(s, p))
}

proof fn lemma_hrefs_from_sound(s: Seq<char>, i: int)
    ensures
        forall|v: Seq<char>| #[trigger] hrefs_from(s, i).contains(v) ==> value_from(s, i, v),
    decreases s.len() - i,
{
    if 0 <= i < s.len() {
        if href_at(s, i) {
            let e = value_end(s, i);
            let rest = hrefs_from(s, e + 1);
            lemma_href_bounds(s, i);
            lemma_hrefs_from_sound(s, e + 1);
            assert forall|v: Seq<char>| #[trigger]
                hrefs_from(s, i).contains(v) implies value_from(s, i, v) by {
                let k = choose|k: int| 0 <= k < hrefs_from(s, i).len() && hrefs_from(s, i)[k] == v;
                if k > 0 {
                    assert(rest[k - 1] == v);
                    assert(rest.contains(v));
                    let p = choose|p: int|
                        e + 1 <= p && href_at(s, p) && v == s.subrange(
                            value_start(s, p),
                            value_end(s, p),
                        );
                    assert(i <= p);
                } else {
                    assert(i <= i && href_at(s, i));
                }
            }
        } else {
            lemma_hrefs_from_sound(s, i + 1);
            assert forall|v: Seq<char>| #[trigger]
                hrefs_from(s, i).contains(v) implies value_from(s, i, v) by {
                assert(hrefs_from(s, i + 1).contains(v));
                let p = choose|p: int|
                    i + 1 <= p && href_at(s, p) && v == s.subrange(value_start(s, p), value_end(s, p));
                assert(i <= p);
            }
        }
    }
}

proof fn lemma_hrefs_from_complete(s: Seq<char>, i: int, p: int)
    requires
        0 <= i <= p,
        href_at(s, p),
        forall|q: int| i <= q < p && href_at(s, q) ==> value_end(s, q) < p,
    ensures
        hrefs_from(s, i).contains(s.subrange(value_start(s, p), value_end(s, p))),
    decreases s.len() - i,
{
    let v = s.subrange(value_start(s, p), value_end(s, p));
    if i == p {
        assert(hrefs_from(s, i)[0] == v);
    } else if href_at(s, i) {
        let e = value_end(s, i);
        lemma_href_bounds(s, i);
        lemma_hrefs_from_complete(s, e + 1, p);
        let rest = hrefs_from(s, e + 1);
        let k = choose|k: int| 0 <= k < rest.len() && #[trigger] rest[k] == v;
        assert(hrefs_from(s, i)[k + 1] == v);
    } else {
        lemma_hrefs_from_complete(s, i + 1, p);
    }
}

proof fn lemma_hrefs_from_none(s: Seq<char>, i: int)
    requires
        forall|p: int| !href_at(s, p),
    ensures
        hrefs_from(s, i) == Seq::<Seq<char>>::empty(),
    decreases s.len() - i,
{
    if 0 <= i < s.len() {
        lemma_hrefs_from_none(s, i + 1);
    }
}

/// Every attribute `href` that does not begin inside the quoted value of an earlier
/// one is found, and every value found is that of an attribute `href` of `s`.
pub proof fn lemma_hrefs_exact(s: Seq<char>, p: int)
    requires
        href_at(s, p),
        forall|q: int| 0 <= q < p && href_at(s, q) ==> value_end(s, q) < p,
    ensures
        hrefs(s).contains(s.subrange(value_start(s, p), value_end(s, p))),
        forall|v: Seq<char>| #[trigger] hrefs(s).contains(v) ==> value_from(s, 0, v),
{
    lemma_hrefs_from_complete(s, 0, p);
    lemma_hrefs_from_sound(s, 0);
}

/// A link of `s` is the decoded value of one of its attributes `href` that is no
/// fragment link, and each such value is a link of `s`.
pub proof fn lemma_links_are_targets(s: Seq<char>, l: Seq<char>)
    ensures
        links_of(s).contains(l) <==> decodes_to(hrefs(s), l),
{
    lemma_dedup_members(targets(hrefs(s)));
    lemma_targets_members(hrefs(s));
}

/// Text without an attribute `href` has no links.
pub proof fn lemma_no_href_no_links(s: Seq<char>)
    requires
        forall|p: int| !href_at(s, p),
    ensures
        links_of(s) == Seq::<Seq<char>>::empty(),
{
    lemma_hrefs_from_none(s, 0);
}

/// No link is listed twice, however often it stands in the text.
pub proof fn lemma_links_unique(s: Seq<char>)
    ensures
        links_of(s).no_duplicates(),
{
    lemma_dedup_no_duplicates(targets(hrefs(s)));
}

} // verus!
