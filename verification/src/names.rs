use vstd::prelude::*;
use vstd::string::StrSliceExecFns;

verus! {

// ---------------------------------------------------------------------------
// Lexicographic order on entry names
//
// Archive entry names are compared character by character, by Unicode scalar
// value.  This coincides with the byte order of their UTF-8 encodings, the
// order `str::cmp` gives.
// ---------------------------------------------------------------------------

/// `a` is at most `b` in lexicographic order (a prefix is at most any
/// extension of itself).
pub open spec fn lex_leq(a: Seq<char>, b: Seq<char>) -> bool
    decreases a.len(),
{
    if a.len() == 0 {
        true
    } else if b.len() == 0 {
        false
    } else if a[0] == b[0] {
        lex_leq(a.drop_first(), b.drop_first())
    } else {
        (a[0] as u32) < (b[0] as u32)
    }
}

/// Strict lexicographic order.
pub open spec fn lex_lt(a: Seq<char>, b: Seq<char>) -> bool {
    lex_leq(a, b) && a != b
}

/// The order is total: any two names are comparable.
pub proof fn lemma_lex_total(a: Seq<char>, b: Seq<char>)
    ensures
        lex_leq(a, b) || lex_leq(b, a),
    decreases a.len(),
{
    if a.len() == 0 || b.len() == 0 {
    } else if a[0] == b[0] {
        lemma_lex_total(a.drop_first(), b.drop_first());
    } else {
        if (a[0] as u32) == (b[0] as u32) {
            vstd::utf8::char_u32_cast(a[0], a[0] as u32);
            vstd::utf8::char_u32_cast(b[0], b[0] as u32);
            assert(false);
        }
    }
}

/// The order is antisymmetric: mutually ordered names are equal.
pub proof fn lemma_lex_antisym(a: Seq<char>, b: Seq<char>)
    requires
        lex_leq(a, b),
        lex_leq(b, a),
    ensures
        a == b,
    decreases a.len(),
{
    if a.len() == 0 {
        assert(b.len() == 0);
        assert(a =~= b);
    } else {
        assert(a[0] == b[0]);
        lemma_lex_antisym(a.drop_first(), b.drop_first());
        assert(a =~= seq![a[0]] + a.drop_first());
        assert(b =~= seq![b[0]] + b.drop_first());
    }
}

/// The order is transitive.
pub proof fn lemma_lex_trans(a: Seq<char>, b: Seq<char>, c: Seq<char>)
    requires
        lex_leq(a, b),
        lex_leq(b, c),
    ensures
        lex_leq(a, c),
    decreases a.len(),
{
    if a.len() == 0 || b.len() == 0 || c.len() == 0 {
    } else if a[0] == b[0] && b[0] == c[0] {
        lemma_lex_trans(a.drop_first(), b.drop_first(), c.drop_first());
    } else {
    }
}

/// A prefix of a name is at most that name.
pub proof fn lemma_prefix_lex_leq(a: Seq<char>, b: Seq<char>)
    requires
        a.is_prefix_of(b),
    ensures
        lex_leq(a, b),
    decreases a.len(),
{
    if a.len() == 0 {
    } else {
        assert(a[0] == b[0]);
        assert(a.drop_first().is_prefix_of(b.drop_first()));
        lemma_prefix_lex_leq(a.drop_first(), b.drop_first());
    }
}

// ---------------------------------------------------------------------------
// Executable comparisons on `&str`
// ---------------------------------------------------------------------------

/// Character-wise string equality.
pub fn str_eq(a: &str, b: &str) -> (r: bool)
    ensures
        r == (a@ == b@),
{
    let alen: usize = a.unicode_len();
    let blen: usize = b.unicode_len();
    if alen != blen {
        return false;
    }
    let mut i: usize = 0;
    while i < alen
        invariant
            alen == a@.len(),
            blen == b@.len(),
            alen == blen,
            i <= alen,
            forall|j: int| 0 <= j < i ==> a@[j] == b@[j],
        decreases alen - i,
    {
        if a.get_char(i) != b.get_char(i) {
            return false;
        }
        i = i + 1;
    }
    proof {
        assert(a@ =~= b@);
    }
    true
}

/// Executable lexicographic comparison, deciding `lex_leq` on the views.
pub fn lex_le(a: &str, b: &str) -> (r: bool)
    ensures
        r == lex_leq(a@, b@),
{
    let alen: usize = a.unicode_len();
    let blen: usize = b.unicode_len();
    let min: usize = if alen < blen {
        alen
    } else {
        blen
    };
    let mut i: usize = 0;
    proof {
        assert(a@.skip(0) =~= a@);
        assert(b@.skip(0) =~= b@);
    }
    while i < min
        invariant
            alen == a@.len(),
            blen == b@.len(),
            min == if alen < blen { alen } else { blen },
            i <= min,
            lex_leq(a@, b@) == lex_leq(a@.skip(i as int), b@.skip(i as int)),
        decreases min - i,
    {
        let ca = a.get_char(i);
        let cb = b.get_char(i);
        if ca != cb {
            proof {
                assert(a@.skip(i as int)[0] == ca);
                assert(b@.skip(i as int)[0] == cb);
            }
            return (ca as u32) < (cb as u32);
        }
        proof {
            assert(a@.skip(i as int).drop_first() =~= a@.skip(i + 1));
            assert(b@.skip(i as int).drop_first() =~= b@.skip(i + 1));
        }
        i = i + 1;
    }
    proof {
        if alen <= blen {
            assert(a@.skip(i as int).len() == 0);
        } else {
            assert(a@.skip(i as int).len() > 0);
            assert(b@.skip(i as int).len() == 0);
        }
    }
    alen <= blen
}

// ---------------------------------------------------------------------------
// Path components
//
// A path or entry name is read as its forward-slash-separated components.
// Splitting never loses characters: empty components mark doubled, leading or
// trailing separators.
// ---------------------------------------------------------------------------

/// The `/`-separated components of `s`; always at least one component.
pub open spec fn split_slash(s: Seq<char>) -> Seq<Seq<char>>
    decreases s.len(),
{
    if s.len() == 0 {
        seq![Seq::<char>::empty()]
    } else {
        let prior = split_slash(s.drop_last());
        if s.last() == '/' {
            prior.push(Seq::<char>::empty())
        } else {
            prior.update(prior.len() - 1, prior.last().push(s.last()))
        }
    }
}

proof fn lemma_split_slash_len(s: Seq<char>)
    ensures
        split_slash(s).len() >= 1,
    decreases s.len(),
{
    if s.len() > 0 {
        lemma_split_slash_len(s.drop_last());
    }
}

/// Splits a path into its `/`-separated components.
pub fn split_components(s: &str) -> (r: Vec<String>)
    ensures
        r.deep_view() == split_slash(s@),
{
    let len: usize = s.unicode_len();
    let mut done: Vec<String> = Vec::new();
    let mut st: usize = 0;
    let mut i: usize = 0;
    proof {
        assert(s@.subrange(0, 0) =~= Seq::<char>::empty());
        assert(split_slash(s@.subrange(0, 0)) =~= seq![Seq::<char>::empty()]);
    }
    while i < len
        invariant
            len == s@.len(),
            st <= i <= len,
            split_slash(s@.subrange(0, i as int)) == done.deep_view().push(
                s@.subrange(st as int, i as int),
            ),
        decreases len - i,
    {
        let c = s.get_char(i);
        proof {
            assert(s@.subrange(0, i + 1).drop_last() =~= s@.subrange(0, i as int));
            assert(s@.subrange(0, i + 1).last() == c);
            lemma_split_slash_len(s@.subrange(0, i as int));
        }
        if c == '/' {
            let comp = s.substring_char(st, i);
            let ghost pre = done.deep_view();
            done.push(String::from_str(comp));
            proof {
                assert(done.deep_view() =~= pre.push(s@.subrange(st as int, i as int)));
                assert(s@.subrange(i + 1, i + 1) =~= Seq::<char>::empty());
                assert(split_slash(s@.subrange(0, i + 1)) =~= done.deep_view().push(
                    s@.subrange(i + 1, i + 1),
                ));
            }
            st = i + 1;
        } else {
            proof {
                let old_split = split_slash(s@.subrange(0, i as int));
                assert(old_split.last() == s@.subrange(st as int, i as int));
                assert(s@.subrange(st as int, i as int).push(c) =~= s@.subrange(
                    st as int,
                    i + 1,
                ));
                assert(split_slash(s@.subrange(0, i + 1)) =~= done.deep_view().push(
                    s@.subrange(st as int, i + 1),
                ));
            }
        }
        i = i + 1;
    }
    let tail = s.substring_char(st, len);
    done.push(String::from_str(tail));
    proof {
        assert(s@.subrange(0, len as int) =~= s@);
        assert(done.deep_view() =~= split_slash(s@));
    }
    done
}

// ---------------------------------------------------------------------------
// Display names
//
// The display name of a source path is its final meaningful path component:
// empty components and current-directory markers are ignored, and a path
// whose last meaningful component is the parent-directory marker has no
// display name, exactly as the platform's notion of a file name.
// ---------------------------------------------------------------------------

/// A component that names nothing: empty or the current-directory marker.
pub open spec fn comp_skip(c: Seq<char>) -> bool {
    c.len() == 0 || c == seq!['.']
}

/// The parent-directory marker.
pub open spec fn comp_parent(c: Seq<char>) -> bool {
    c == seq!['.', '.']
}

/// The components of a component sequence that name something.
pub open spec fn meaningful_of(comps: Seq<Seq<char>>) -> Seq<Seq<char>>
    decreases comps.len(),
{
    if comps.len() == 0 {
        Seq::empty()
    } else {
        let prior = meaningful_of(comps.drop_last());
        if comp_skip(comps.last()) {
            prior
        } else {
            prior.push(comps.last())
        }
    }
}

/// The components of `s` that name something.
pub open spec fn meaningful_comps(s: Seq<char>) -> Seq<Seq<char>> {
    meaningful_of(split_slash(s))
}

/// No component of a split holds a separator.
pub proof fn lemma_split_slash_no_slash(s: Seq<char>)
    ensures
        forall|i: int|
            0 <= i < split_slash(s).len() ==> !(#[trigger] split_slash(s)[i]).contains('/'),
    decreases s.len(),
{
    if s.len() == 0 {
        assert forall|i: int| 0 <= i < split_slash(s).len() implies !(#[trigger] split_slash(
            s,
        )[i]).contains('/') by {
            assert(split_slash(s)[i] =~= Seq::<char>::empty());
        }
    } else {
        lemma_split_slash_no_slash(s.drop_last());
        let prior = split_slash(s.drop_last());
        if s.last() == '/' {
            assert forall|i: int| 0 <= i < split_slash(s).len() implies !(#[trigger] split_slash(
                s,
            )[i]).contains('/') by {
                if i < prior.len() {
                    assert(split_slash(s)[i] == prior[i]);
                } else {
                    assert(split_slash(s)[i] =~= Seq::<char>::empty());
                }
            }
        } else {
            lemma_split_slash_len(s.drop_last());
            assert forall|i: int| 0 <= i < split_slash(s).len() implies !(#[trigger] split_slash(
                s,
            )[i]).contains('/') by {
                if i < prior.len() - 1 {
                    assert(split_slash(s)[i] == prior[i]);
                } else {
                    assert(split_slash(s)[i] == prior.last().push(s.last()));
                    assert(!prior.last().contains('/'));
                    assert forall|j: int|
                        0 <= j < prior.last().push(s.last()).len() implies prior.last().push(
                        s.last(),
                    )[j] != '/' by {
                        if j < prior.last().len() {
                            assert(prior.last().push(s.last())[j] == prior.last()[j]);
                        }
                    }
                }
            }
        }
    }
}

/// Every meaningful component names something.
pub proof fn lemma_meaningful_non_skip(comps: Seq<Seq<char>>)
    ensures
        forall|i: int|
            0 <= i < meaningful_of(comps).len() ==> !comp_skip(
                #[trigger] meaningful_of(comps)[i],
            ),
    decreases comps.len(),
{
    if comps.len() > 0 {
        lemma_meaningful_non_skip(comps.drop_last());
        let prior = meaningful_of(comps.drop_last());
        assert forall|i: int| 0 <= i < meaningful_of(comps).len() implies !comp_skip(
            #[trigger] meaningful_of(comps)[i],
        ) by {
            if i < prior.len() {
                assert(meaningful_of(comps)[i] == prior[i]);
            } else {
                assert(meaningful_of(comps)[i] == comps.last());
            }
        }
    }
}

/// A display name is non-empty and holds no separator.
pub proof fn lemma_final_component_shape(s: Seq<char>)
    ensures
        final_component(s) matches Some(n) ==> n.len() > 0 && !n.contains('/'),
{
    lemma_meaningful_non_skip(split_slash(s));
    lemma_split_slash_no_slash(s);
    let m = meaningful_comps(s);
    if m.len() > 0 && !comp_parent(m.last()) {
        lemma_meaningful_sub(split_slash(s));
    }
}

/// Every meaningful component is a component.
pub proof fn lemma_meaningful_sub(comps: Seq<Seq<char>>)
    ensures
        forall|i: int|
            0 <= i < meaningful_of(comps).len() ==> comps.contains(
                #[trigger] meaningful_of(comps)[i],
            ),
    decreases comps.len(),
{
    if comps.len() > 0 {
        lemma_meaningful_sub(comps.drop_last());
        assert forall|i: int| 0 <= i < meaningful_of(comps).len() implies comps.contains(
            #[trigger] meaningful_of(comps)[i],
        ) by {
            let prior = meaningful_of(comps.drop_last());
            if i < prior.len() {
                assert(comps.drop_last().contains(prior[i]));
                let j = choose|j: int|
                    0 <= j < comps.drop_last().len() && comps.drop_last()[j] == prior[i];
                assert(comps[j] == meaningful_of(comps)[i]);
            } else {
                assert(meaningful_of(comps)[i] == comps.last());
                assert(comps[comps.len() - 1] == comps.last());
            }
        }
    }
}

/// The display name of a path: its final meaningful component, or `None`
/// when the path has none or ends in a parent-directory marker.
pub open spec fn final_component(s: Seq<char>) -> Option<Seq<char>> {
    let m = meaningful_comps(s);
    if m.len() == 0 {
        None
    } else if comp_parent(m.last()) {
        None
    } else {
        Some(m.last())
    }
}

/// Decides whether a component names nothing.
fn comp_is_skip(c: &str) -> (r: bool)
    ensures
        r == comp_skip(c@),
{
    proof {
        reveal_strlit(".");
        assert("."@ =~= seq!['.']);
    }
    c.unicode_len() == 0 || str_eq(c, ".")
}

/// Decides whether a component is the parent-directory marker.
fn comp_is_parent(c: &str) -> (r: bool)
    ensures
        r == comp_parent(c@),
{
    proof {
        reveal_strlit("..");
        assert(".."@ =~= seq!['.', '.']);
    }
    str_eq(c, "..")
}

/// Computes the display name of a source path.
pub fn final_component_of(path: &str) -> (r: Option<String>)
    ensures
        r.deep_view() == final_component(path@),
{
    let comps = split_components(path);
    let n: usize = comps.len();
    let mut keep: Vec<String> = Vec::new();
    let mut i: usize = 0;
    proof {
        assert(comps.deep_view().subrange(0, 0) =~= Seq::<Seq<char>>::empty());
    }
    while i < n
        invariant
            n == comps.len(),
            comps.deep_view().len() == n,
            i <= n,
            keep.deep_view() == meaningful_of(comps.deep_view().subrange(0, i as int)),
        decreases n - i,
    {
        proof {
            assert(comps.deep_view().subrange(0, i + 1).drop_last() =~= comps.deep_view()
                .subrange(0, i as int));
            assert(comps.deep_view().subrange(0, i + 1).last() == comps@[i as int].deep_view());
        }
        if !comp_is_skip(comps[i].as_str()) {
            let ghost pre = keep.deep_view();
            keep.push(comps[i].clone());
            proof {
                assert(keep.deep_view() =~= pre.push(comps@[i as int].deep_view()));
                assert(meaningful_of(comps.deep_view().subrange(0, i + 1)) == meaningful_of(
                    comps.deep_view().subrange(0, i as int),
                ).push(comps@[i as int].deep_view()));
            }
        } else {
            proof {
                assert(meaningful_of(comps.deep_view().subrange(0, i + 1)) == meaningful_of(
                    comps.deep_view().subrange(0, i as int),
                ));
            }
        }
        i = i + 1;
    }
    proof {
        assert(comps.deep_view().subrange(0, n as int) =~= comps.deep_view());
    }
    let k: usize = keep.len();
    if k == 0 {
        None
    } else if comp_is_parent(keep[k - 1].as_str()) {
        None
    } else {
        proof {
            assert(keep.deep_view().last() == keep@[k - 1]@);
        }
        Some(keep[k - 1].clone())
    }
}

/// A character absent from a path is absent from its components.
pub proof fn lemma_split_not_contains(s: Seq<char>, c: char)
    requires
        !s.contains(c),
    ensures
        forall|i: int|
            0 <= i < split_slash(s).len() ==> !(#[trigger] split_slash(s)[i]).contains(c),
    decreases s.len(),
{
    if s.len() == 0 {
        assert forall|i: int| 0 <= i < split_slash(s).len() implies !(#[trigger] split_slash(
            s,
        )[i]).contains(c) by {
            assert(split_slash(s)[i] =~= Seq::<char>::empty());
        }
    } else {
        assert(!s.drop_last().contains(c)) by {
            if s.drop_last().contains(c) {
                let k = choose|k: int| 0 <= k < s.drop_last().len() && s.drop_last()[k] == c;
                assert(s[k] == c);
            }
        }
        lemma_split_not_contains(s.drop_last(), c);
        lemma_split_slash_len(s.drop_last());
        let prior = split_slash(s.drop_last());
        assert(s.last() != c) by {
            if s.last() == c {
                assert(s[s.len() - 1] == c);
            }
        }
        assert forall|i: int| 0 <= i < split_slash(s).len() implies !(#[trigger] split_slash(
            s,
        )[i]).contains(c) by {
            if s.last() == '/' {
                if i < prior.len() {
                    assert(split_slash(s)[i] == prior[i]);
                } else {
                    assert(split_slash(s)[i] =~= Seq::<char>::empty());
                }
            } else {
                if i < prior.len() - 1 {
                    assert(split_slash(s)[i] == prior[i]);
                } else {
                    assert(split_slash(s)[i] == prior.last().push(s.last()));
                    assert forall|j: int|
                        0 <= j < prior.last().push(s.last()).len() implies prior.last().push(
                        s.last(),
                    )[j] != c by {
                        if j < prior.last().len() {
                            assert(prior.last().push(s.last())[j] == prior.last()[j]);
                            assert(!prior.last().contains(c));
                        }
                    }
                }
            }
        }
    }
}

/// A path without separators is its own single component.
pub proof fn lemma_split_no_slash_whole(s: Seq<char>)
    requires
        !s.contains('/'),
    ensures
        split_slash(s) == seq![s],
    decreases s.len(),
{
    if s.len() == 0 {
        assert(split_slash(s) =~~= seq![s]);
    } else {
        assert(!s.drop_last().contains('/')) by {
            if s.drop_last().contains('/') {
                let k = choose|k: int| 0 <= k < s.drop_last().len() && s.drop_last()[k] == '/';
                assert(s[k] == '/');
            }
        }
        lemma_split_no_slash_whole(s.drop_last());
        assert(s.last() != '/') by {
            if s.last() == '/' {
                assert(s[s.len() - 1] == '/');
            }
        }
        assert(split_slash(s) =~= seq![s.drop_last().push(s.last())]);
        assert(s.drop_last().push(s.last()) =~= s);
    }
}

/// Splitting distributes over joining with a separator.
pub proof fn lemma_split_append(a: Seq<char>, b: Seq<char>)
    ensures
        split_slash(a + seq!['/'] + b) == split_slash(a) + split_slash(b),
    decreases b.len(),
{
    if b.len() == 0 {
        assert(a + seq!['/'] + b =~= a + seq!['/']);
        assert((a + seq!['/']).drop_last() =~= a);
        assert((a + seq!['/']).last() == '/');
        assert(split_slash(a + seq!['/'] + b) =~= split_slash(a).push(Seq::<char>::empty()));
        assert(split_slash(b) =~= seq![Seq::<char>::empty()]);
        assert(split_slash(a).push(Seq::<char>::empty()) =~= split_slash(a) + split_slash(b));
    } else {
        lemma_split_append(a, b.drop_last());
        lemma_split_slash_len(b.drop_last());
        let whole = a + seq!['/'] + b;
        assert(whole.drop_last() =~= a + seq!['/'] + b.drop_last());
        assert(whole.last() == b.last());
        let prior = split_slash(a + seq!['/'] + b.drop_last());
        let bp = split_slash(b.drop_last());
        if b.last() == '/' {
            assert(split_slash(whole) =~= prior.push(Seq::<char>::empty()));
            assert(split_slash(b) =~= bp.push(Seq::<char>::empty()));
            assert(prior.push(Seq::<char>::empty()) =~= split_slash(a) + bp.push(
                Seq::<char>::empty(),
            ));
        } else {
            assert(split_slash(whole) =~= prior.update(
                prior.len() - 1,
                prior.last().push(b.last()),
            ));
            assert(split_slash(b) =~= bp.update(bp.len() - 1, bp.last().push(b.last())));
            assert(prior.last() == bp.last()) by {
                assert(prior == split_slash(a) + bp);
                assert(prior[prior.len() - 1] == bp[bp.len() - 1]);
            }
            assert(prior.update(prior.len() - 1, prior.last().push(b.last())) =~= split_slash(a)
                + bp.update(bp.len() - 1, bp.last().push(b.last())));
        }
    }
}

/// A walk through components none of which is the parent-directory marker
/// never leaves its root.
pub proof fn lemma_enclosed_no_parent(comps: Seq<Seq<char>>, depth: int)
    requires
        forall|i: int| 0 <= i < comps.len() ==> !comp_parent(#[trigger] comps[i]),
    ensures
        comps_enclosed(comps, depth),
    decreases comps.len(),
{
    if comps.len() > 0 {
        assert(!comp_parent(comps[0]));
        assert forall|i: int| 0 <= i < comps.drop_first().len() implies !comp_parent(
            #[trigger] comps.drop_first()[i],
        ) by {
            assert(comps.drop_first()[i] == comps[i + 1]);
        }
        if comp_skip(comps.first()) {
            lemma_enclosed_no_parent(comps.drop_first(), depth);
        } else {
            lemma_enclosed_no_parent(comps.drop_first(), depth + 1);
        }
    }
}

// ---------------------------------------------------------------------------
// Archive entry names
// ---------------------------------------------------------------------------

/// The name an item with path `rel` relative to its source root receives in
/// the archive: prefixed by the display name of the root when the root has
/// one, bare otherwise.
pub open spec fn archive_name(display: Option<Seq<char>>, rel: Seq<char>) -> Seq<char> {
    match display {
        Option::None => rel,
        Option::Some(d) => d + seq!['/'] + rel,
    }
}

/// A directory entry name: non-empty and `/`-terminated.
pub open spec fn is_dir_name(name: Seq<char>) -> bool {
    name.len() > 0 && name.last() == '/'
}

/// `name` with a trailing `/` appended unless one is already there.
pub open spec fn with_dir_slash(name: Seq<char>) -> Seq<char> {
    if is_dir_name(name) {
        name
    } else {
        name.push('/')
    }
}

/// Joins a source's display name and a relative path into an entry name.
pub fn archive_name_of(display: &Option<String>, rel: &str) -> (r: String)
    ensures
        r@ == archive_name(display.deep_view(), rel@),
{
    match display {
        Option::None => String::from_str(rel),
        Option::Some(d) => {
            let mut out = d.clone();
            out.append("/");
            out.append(rel);
            proof {
                reveal_strlit("/");
                assert("/"@ =~= seq!['/']);
            }
            out
        },
    }
}

/// Returns whether `name` is non-empty and ends in `/`.
pub fn ends_in_slash(name: &str) -> (r: bool)
    ensures
        r == is_dir_name(name@),
{
    let n: usize = name.unicode_len();
    n > 0 && name.get_char(n - 1) == '/'
}

/// Appends a trailing `/` to `name` unless one is already there.
pub fn dir_name_of(name: &str) -> (r: String)
    ensures
        r@ == with_dir_slash(name@),
{
    let mut out = String::from_str(name);
    if !ends_in_slash(name) {
        out.append("/");
        proof {
            reveal_strlit("/");
            assert("/"@ =~= seq!['/']);
            assert(name@ + seq!['/'] =~= name@.push('/'));
        }
    }
    out
}

// ---------------------------------------------------------------------------
// Traversal safety (the zip-slip defence)
//
// An entry's stored name may only be joined to the extraction destination
// when following it cannot leave that destination: it must be relative,
// carry no NUL byte, and at no point walk above its own root through
// parent-directory components.
// ---------------------------------------------------------------------------

/// Scanning `comps` left to right from nesting level `depth`, the walk never
/// moves above the starting root.
pub open spec fn comps_enclosed(comps: Seq<Seq<char>>, depth: int) -> bool
    decreases comps.len(),
{
    if comps.len() == 0 {
        true
    } else if comp_parent(comps.first()) {
        depth > 0 && comps_enclosed(comps.drop_first(), depth - 1)
    } else if comp_skip(comps.first()) {
        comps_enclosed(comps.drop_first(), depth)
    } else {
        comps_enclosed(comps.drop_first(), depth + 1)
    }
}

/// A stored entry name that is safe to resolve under the destination: not
/// absolute, free of NUL, and enclosed in its own root.
pub open spec fn safe_entry_path(name: Seq<char>) -> bool {
    &&& name.len() > 0 ==> name[0] != '/'
    &&& !name.contains('\0')
    &&& comps_enclosed(split_slash(name), 0)
}

/// Decides `safe_entry_path`: the mandatory path-traversal defence applied
/// to every container entry before its name is joined to the destination.
pub fn is_safe_entry_path(name: &str) -> (r: bool)
    ensures
        r == safe_entry_path(name@),
{
    let len: usize = name.unicode_len();
    if len > 0 && name.get_char(0) == '/' {
        return false;
    }
    let mut i: usize = 0;
    while i < len
        invariant
            len == name@.len(),
            i <= len,
            forall|j: int| 0 <= j < i ==> name@[j] != '\0',
        decreases len - i,
    {
        if name.get_char(i) == '\0' {
            assert(name@.contains('\0'));
            return false;
        }
        i = i + 1;
    }
    assert(!name@.contains('\0'));
    let comps = split_components(name);
    let n: usize = comps.len();
    let ghost cv = comps.deep_view();
    let mut depth: usize = 0;
    let mut k: usize = 0;
    proof {
        assert(cv.skip(0) =~= cv);
    }
    while k < n
        invariant
            n == comps.len(),
            cv == comps.deep_view(),
            cv == split_slash(name@),
            !name@.contains('\0'),
            name@.len() > 0 ==> name@[0] != '/',
            cv.len() == n,
            k <= n,
            depth <= k,
            comps_enclosed(cv, 0) == comps_enclosed(cv.skip(k as int), depth as int),
        decreases n - k,
    {
        proof {
            assert(cv.skip(k as int).first() == cv[k as int]);
            assert(cv[k as int] == comps@[k as int]@);
            assert(cv.skip(k as int).drop_first() =~= cv.skip(k + 1));
        }
        let c = &comps[k];
        if comp_is_parent(c.as_str()) {
            if depth == 0 {
                proof {
                    assert(!comps_enclosed(cv.skip(k as int), 0));
                }
                return false;
            }
            depth = depth - 1;
        } else if !comp_is_skip(c.as_str()) {
            depth = depth + 1;
        }
        k = k + 1;
    }
    proof {
        assert(cv.skip(n as int).len() == 0);
    }
    true
}

} // verus!
