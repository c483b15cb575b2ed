use vstd::prelude::*;
use crate::config::{infer_prefixes, inferred_sources, ArgParser};
use crate::error::{views, Mate, PairError, PairFault};
use crate::paths::{file_name, file_name_of};
use crate::pattern::{identity_of, join_groups, regex_is_match, MatePattern};

verus! {

/// The items whose flag in `keep` is set, in their order.
pub open spec fn select(items: Seq<Seq<char>>, keep: Seq<bool>) -> Seq<Seq<char>>
    decreases items.len(),
{
    if items.len() == 0 {
        Seq::empty()
    } else {
        let rest = select(items.drop_last(), keep);
        if keep[items.len() - 1] {
            rest.push(items.last())
        } else {
            rest
        }
    }
}

/// Each first item followed by the second item of the same index.
pub open spec fn interleaved(first: Seq<Seq<char>>, second: Seq<Seq<char>>) -> Seq<Seq<char>>
    decreases first.len(),
{
    if first.len() == 0 {
        Seq::empty()
    } else {
        interleaved(first.drop_last(), second.drop_last()) + seq![first.last(), second.last()]
    }
}

/// The output order of two groups.
pub open spec fn emitted(first: Seq<Seq<char>>, second: Seq<Seq<char>>, interleave: bool) -> Seq<Seq<char>> {
    if interleave {
        interleaved(first, second)
    } else {
        first + second
    }
}

/// The outcome of checking two groups' identities (`first` and `second` name
/// the patterns).
pub open spec fn validation(
    first: Seq<char>,
    second: Seq<char>,
    ids1: Seq<Seq<char>>,
    ids2: Seq<Seq<char>>,
) -> Result<(), PairFault> {
    if ids1.len() != ids2.len() {
        Err(PairFault::CountMismatch {
            first,
            second,
            surplus: if ids1.len() > ids2.len() { Mate::First } else { Mate::Second },
        })
    } else if ids1.to_set() == ids2.to_set() {
        Ok(())
    } else {
        Err(PairFault::IdentityMismatch {
            missing_in_second: ids1.to_set().difference(ids2.to_set()),
            missing_in_first: ids2.to_set().difference(ids1.to_set()),
        })
    }
}

/// The file name of a path, empty where it has none.
pub open spec fn name_of(path: Seq<char>) -> Seq<char> {
    match file_name_of(path) {
        Some(n) => n,
        None => Seq::empty(),
    }
}

/// For each path, whether its file name matches `pattern`.
pub open spec fn mate_flags(paths: Seq<Seq<char>>, pattern: Seq<char>) -> Seq<bool> {
    paths.map_values(|f: Seq<char>| regex_is_match(pattern, name_of(f)))
}

/// The paths whose file name matches `pattern`, in scan order.
pub open spec fn group(paths: Seq<Seq<char>>, pattern: Seq<char>) -> Seq<Seq<char>> {
    select(paths, mate_flags(paths, pattern))
}

/// The base identities of a group: each file name with its token taken out.
pub open spec fn identities(group: Seq<Seq<char>>, pattern: Seq<char>) -> Seq<Seq<char>> {
    group.map_values(|f: Seq<char>| identity_of(pattern, name_of(f)))
}

/// Whether a path has a file name that one of the two patterns matches.
pub open spec fn classifiable(path: Seq<char>, first: Seq<char>, second: Seq<char>) -> bool {
    file_name_of(path) is Some && (regex_is_match(first, name_of(path)) || regex_is_match(
        second,
        name_of(path),
    ))
}

/// `i` is the first index of a path that cannot be classified.
pub open spec fn first_unclassifiable(
    paths: Seq<Seq<char>>,
    first: Seq<char>,
    second: Seq<char>,
    i: int,
) -> bool {
    &&& 0 <= i < paths.len()
    &&& !classifiable(paths[i], first, second)
    &&& forall|j: int| 0 <= j < i ==> classifiable(#[trigger] paths[j], first, second)
}

/// The outcome of pairing `paths` with the mate patterns `first` and `second`.
pub open spec fn pairing(
    paths: Seq<Seq<char>>,
    first: Seq<char>,
    second: Seq<char>,
    interleave: bool,
) -> Result<Seq<Seq<char>>, PairFault> {
    if exists|i: int| first_unclassifiable(paths, first, second, i) {
        let i = choose|i: int| first_unclassifiable(paths, first, second, i);
        if file_name_of(paths[i]) is None {
            Err(PairFault::NoFileName { path: paths[i] })
        } else {
            Err(PairFault::Unmatched { file_name: name_of(paths[i]), first, second })
        }
    } else {
        let g1 = group(paths, first);
        let g2 = group(paths, second);
        match validation(first, second, identities(g1, first), identities(g2, second)) {
            Err(e) => Err(e),
            Ok(_) => Ok(emitted(g1, g2, interleave)),
        }
    }
}

/// A list of paths, or an error, seen through views.
pub open spec fn paths_result(r: Result<Vec<String>, PairError>) -> Result<Seq<Seq<char>>, PairFault> {
    match r {
        Ok(v) => Ok(views(v@)),
        Err(e) => Err(e@),
    }
}

proof fn lemma_select_member(items: Seq<Seq<char>>, keep: Seq<bool>, k: int)
    requires
        items.len() <= keep.len(),
        0 <= k < select(items, keep).len(),
    ensures
        exists|j: int| 0 <= j < items.len() && keep[j] && select(items, keep)[k] == items[j],
    decreases items.len(),
{
    let rest = select(items.drop_last(), keep);
    if k < rest.len() {
        lemma_select_member(items.drop_last(), keep, k);
        let j = choose|j: int|
            0 <= j < items.drop_last().len() && keep[j] && rest[k] == items.drop_last()[j];
        assert(select(items, keep)[k] == items[j]);
    } else {
        assert(select(items, keep)[k] == items[items.len() - 1]);
    }
}

/// Splits `paths` into the first and second mate groups by the flags that
/// say which pattern each path matched, keeping scan order. A path with
/// both flags joins both groups; the index of the first path with neither
/// is the error.
pub fn classify(paths: &Vec<String>, in_first: &Vec<bool>, in_second: &Vec<bool>) -> (r: Result<
    (Vec<String>, Vec<String>),
    usize,
>)
    requires
        in_first@.len() == paths@.len(),
        in_second@.len() == paths@.len(),
    ensures
        match r {
            Ok((g1, g2)) => {
                &&& forall|i: int| 0 <= i < paths@.len() ==> in_first@[i] || in_second@[i]
                &&& views(g1@) == select(views(paths@), in_first@)
                &&& views(g2@) == select(views(paths@), in_second@)
            },
            Err(i) => {
                &&& i < paths@.len()
                &&& !in_first@[i as int] && !in_second@[i as int]
                &&& forall|j: int| 0 <= j < i ==> in_first@[j] || in_second@[j]
            },
        },
{
    let mut g1: Vec<String> = Vec::new();
    let mut g2: Vec<String> = Vec::new();
    let mut i: usize = 0;
    while i < paths.len()
        invariant
            i <= paths@.len(),
            in_first@.len() == paths@.len(),
            in_second@.len() == paths@.len(),
            forall|j: int| 0 <= j < i ==> in_first@[j] || in_second@[j],
            views(g1@) == select(views(paths@).take(i as int), in_first@),
            views(g2@) == select(views(paths@).take(i as int), in_second@),
        decreases paths@.len() - i,
    {
        let a = in_first[i];
        let b = in_second[i];
        if !a && !b {
            return Err(i);
        }
        let ghost before = views(paths@).take(i as int);
        let ghost after = views(paths@).take(i as int + 1);
        assert(after.drop_last() =~= before);
        if a {
            g1.push(paths[i].clone());
        }
        if b {
            g2.push(paths[i].clone());
        }
        assert(views(g1@) =~= select(after, in_first@));
        assert(views(g2@) =~= select(after, in_second@));
        i = i + 1;
    }
    assert(views(paths@).take(paths@.len() as int) =~= views(paths@));
    Ok((g1, g2))
}

fn contains_string(v: &Vec<String>, s: &String) -> (r: bool)
    ensures
        r == views(v@).contains(s@),
{
    let mut k: usize = 0;
    while k < v.len()
        invariant
            k <= v@.len(),
            forall|j: int| 0 <= j < k ==> v@[j]@ != s@,
        decreases v@.len() - k,
    {
        if v[k] == *s {
            assert(views(v@)[k as int] == s@);
            return true;
        }
        k = k + 1;
    }
    false
}

/// The distinct members of `a` that are not in `b`, in order of first appearance.
fn missing_from(a: &Vec<String>, b: &Vec<String>) -> (r: Vec<String>)
    ensures
        views(r@).to_set() == views(a@).to_set().difference(views(b@).to_set()),
        views(r@).no_duplicates(),
{
    let mut out: Vec<String> = Vec::new();
    let mut k: usize = 0;
    while k < a.len()
        invariant
            k <= a@.len(),
            views(out@).no_duplicates(),
            forall|x: Seq<char>|
                views(out@).contains(x) <==> (views(a@).take(k as int).contains(x) && !views(
                    b@,
                ).contains(x)),
        decreases a@.len() - k,
    {
        let x = &a[k];
        let ghost prefix = views(a@).take(k as int + 1);
        assert(prefix =~= views(a@).take(k as int).push(x@));
        let ghost old_out = views(out@);
        if !contains_string(b, x) && !contains_string(&out, x) {
            out.push(x.clone());
            assert(views(out@) =~= old_out.push(x@));
        }
        let ghost before = views(a@).take(k as int);
        assert forall|y: Seq<char>|
            views(out@).contains(y) <==> (prefix.contains(y) && !views(b@).contains(y)) by {
            if before.contains(y) {
                let j = choose|j: int| 0 <= j < before.len() && before[j] == y;
                assert(prefix[j] == y);
            }
            if prefix.contains(y) && y != x@ {
                let j = choose|j: int| 0 <= j < prefix.len() && prefix[j] == y;
                assert(before[j] == y);
            }
            if views(out@).contains(y) && y != x@ {
                let j = choose|j: int| 0 <= j < views(out@).len() && views(out@)[j] == y;
                assert(old_out[j] == y);
            }
            if old_out.contains(y) {
                let j = choose|j: int| 0 <= j < old_out.len() && old_out[j] == y;
                assert(views(out@)[j] == y);
            }
            assert(prefix[k as int] == x@);
            if views(out@).len() > old_out.len() {
                assert(views(out@)[old_out.len() as int] == x@);
            }
        }
        k = k + 1;
    }
    assert(views(a@).take(a@.len() as int) =~= views(a@));
    assert(views(out@).to_set() =~= views(a@).to_set().difference(views(b@).to_set()));
    out
}

/// Checks that two groups pair up: equal sizes first, then equal sets of
/// base identities. `first` and `second` describe the two patterns.
pub fn check_pairing(first: &String, second: &String, ids1: &Vec<String>, ids2: &Vec<String>) -> (r:
    Result<(), PairError>)
    ensures
        match r {
            Ok(_) => validation(first@, second@, views(ids1@), views(ids2@)) == Ok::<(), PairFault>(()),
            Err(e) => {
                &&& validation(first@, second@, views(ids1@), views(ids2@)) == Err::<(), PairFault>(e@)
                &&& e matches PairError::IdentityMismatch { missing_in_second, missing_in_first } ==> {
                    views(missing_in_second@).no_duplicates() && views(missing_in_first@).no_duplicates()
                }
            },
        },
{
    if ids1.len() != ids2.len() {
        let surplus = if ids1.len() > ids2.len() { Mate::First } else { Mate::Second };
        return Err(PairError::CountMismatch { first: first.clone(), second: second.clone(), surplus });
    }
    let missing_in_second = missing_from(ids1, ids2);
    let missing_in_first = missing_from(ids2, ids1);
    let ghost s1 = views(ids1@).to_set();
    let ghost s2 = views(ids2@).to_set();
    if missing_in_second.len() == 0 && missing_in_first.len() == 0 {
        proof {
            assert forall|x: Seq<char>| s1.contains(x) <==> s2.contains(x) by {
                assert(!views(missing_in_second@).to_set().contains(x));
                assert(!views(missing_in_first@).to_set().contains(x));
            }
            assert(s1 =~= s2);
        }
        Ok(())
    } else {
        proof {
            if s1 == s2 {
                if missing_in_second.len() > 0 {
                    assert(views(missing_in_second@).to_set().contains(views(missing_in_second@)[0]));
                } else {
                    assert(views(missing_in_first@).to_set().contains(views(missing_in_first@)[0]));
                }
            }
        }
        Err(PairError::IdentityMismatch { missing_in_second, missing_in_first })
    }
}

/// The output order: all first mates then all second mates, or, when
/// `interleave` is set, each first mate followed by the second mate of the
/// same index.
pub fn emit(first: &Vec<String>, second: &Vec<String>, interleave: bool) -> (r: Vec<String>)
    requires
        interleave ==> first@.len() == second@.len(),
    ensures
        views(r@) == emitted(views(first@), views(second@), interleave),
{
    let mut out: Vec<String> = Vec::new();
    if interleave {
        let mut i: usize = 0;
        while i < first.len()
            invariant
                i <= first@.len(),
                first@.len() == second@.len(),
                views(out@) == interleaved(views(first@).take(i as int), views(second@).take(i as int)),
            decreases first@.len() - i,
        {
            let ghost a = views(first@).take(i as int + 1);
            let ghost b = views(second@).take(i as int + 1);
            assert(a.drop_last() =~= views(first@).take(i as int));
            assert(b.drop_last() =~= views(second@).take(i as int));
            out.push(first[i].clone());
            out.push(second[i].clone());
            assert(views(out@) =~= interleaved(a, b));
            i = i + 1;
        }
        assert(views(first@).take(first@.len() as int) =~= views(first@));
        assert(views(second@).take(second@.len() as int) =~= views(second@));
    } else {
        let mut i: usize = 0;
        while i < first.len()
            invariant
                i <= first@.len(),
                views(out@) =~= views(first@).take(i as int),
            decreases first@.len() - i,
        {
            let ghost old_out = views(out@);
            out.push(first[i].clone());
            assert(views(out@) =~= old_out.push(first@[i as int]@));
            assert(views(first@).take(i as int + 1) =~= views(first@).take(i as int).push(first@[i as int]@));
            i = i + 1;
        }
        let mut j: usize = 0;
        while j < second.len()
            invariant
                j <= second@.len(),
                views(out@) =~= views(first@) + views(second@).take(j as int),
            decreases second@.len() - j,
        {
            let ghost old_out = views(out@);
            out.push(second[j].clone());
            assert(views(out@) =~= old_out.push(second@[j as int]@));
            assert(views(second@).take(j as int + 1) =~= views(second@).take(j as int).push(second@[j as int]@));
            j = j + 1;
        }
        assert(views(second@).take(second@.len() as int) =~= views(second@));
    }
    out
}

proof fn lemma_first_unclassifiable_unique(
    paths: Seq<Seq<char>>,
    first: Seq<char>,
    second: Seq<char>,
    i: int,
)
    requires
        first_unclassifiable(paths, first, second, i),
    ensures
        (choose|k: int| first_unclassifiable(paths, first, second, k)) == i,
{
    let k = choose|k: int| first_unclassifiable(paths, first, second, k);
    assert(first_unclassifiable(paths, first, second, k));
    if k < i {
        assert(classifiable(paths[k], first, second));
    }
    if k > i {
        assert(classifiable(paths[i], first, second));
    }
}

/// The base identities of the members of `g` under `p`.
fn identities_of(g: &Vec<String>, p: &MatePattern) -> (r: Vec<String>)
    requires
        forall|k: int| 0 <= k < g@.len() ==> {
            &&& file_name_of(#[trigger] views(g@)[k]) is Some
            &&& regex_is_match(p@, name_of(views(g@)[k]))
        },
    ensures
        views(r@) == identities(views(g@), p@),
{
    let mut out: Vec<String> = Vec::new();
    let mut k: usize = 0;
    while k < g.len()
        invariant
            k <= g@.len(),
            forall|j: int| 0 <= j < g@.len() ==> {
                &&& file_name_of(#[trigger] views(g@)[j]) is Some
                &&& regex_is_match(p@, name_of(views(g@)[j]))
            },
            views(out@) =~= identities(views(g@).take(k as int), p@),
        decreases g@.len() - k,
    {
        assert(views(g@)[k as int] == g@[k as int]@);
        let name = match file_name(g[k].as_str()) {
            Some(n) => n,
            None => String::new(),
        };
        let id = match p.capture_groups(name.as_str()) {
            Some((before, after)) => join_groups(&before, &after),
            None => String::new(),
        };
        let ghost old_out = views(out@);
        out.push(id);
        assert(views(out@) =~= old_out.push(id@));
        assert(views(g@).take(k as int + 1) =~= views(g@).take(k as int).push(g@[k as int]@));
        k = k + 1;
    }
    assert(views(g@).take(g@.len() as int) =~= views(g@));
    out
}

/// Pairs the candidate paths, in scan order, with the two mate patterns:
/// classifies each file name, checks that the groups pair up, and emits them
/// grouped or interleaved.
pub fn pair_files(filelist: &Vec<String>, first: &MatePattern, second: &MatePattern, interleave: bool) -> (r:
    Result<Vec<String>, PairError>)
    ensures
        paths_result(r) == pairing(views(filelist@), first@, second@, interleave),
{
    let ghost paths = views(filelist@);
    let mut names: Vec<String> = Vec::new();
    let mut in1: Vec<bool> = Vec::new();
    let mut in2: Vec<bool> = Vec::new();
    let mut i: usize = 0;
    while i < filelist.len()
        invariant
            i <= filelist@.len(),
            paths == views(filelist@),
            names@.len() == i,
            in1@.len() == i,
            in2@.len() == i,
            forall|j: int| 0 <= j < i ==> (in1@[j] || in2@[j]) == classifiable(#[trigger] paths[j], first@, second@),
            forall|j: int| 0 <= j < i && file_name_of(#[trigger] paths[j]) is Some ==> {
                &&& names@[j]@ == name_of(paths[j])
                &&& in1@[j] == regex_is_match(first@, name_of(paths[j]))
                &&& in2@[j] == regex_is_match(second@, name_of(paths[j]))
            },
        decreases filelist@.len() - i,
    {
        assert(paths[i as int] == filelist@[i as int]@);
        match file_name(filelist[i].as_str()) {
            Some(name) => {
                in1.push(first.is_match(name.as_str()));
                in2.push(second.is_match(name.as_str()));
                names.push(name);
            },
            None => {
                in1.push(false);
                in2.push(false);
                names.push(String::new());
            },
        }
        i = i + 1;
    }
    let (g1, g2) = match classify(filelist, &in1, &in2) {
        Ok(groups) => groups,
        Err(k) => {
            proof {
                assert(first_unclassifiable(paths, first@, second@, k as int));
                lemma_first_unclassifiable_unique(paths, first@, second@, k as int);
            }
            if file_name(filelist[k].as_str()).is_none() {
                return Err(PairError::NoFileName { path: filelist[k].clone() });
            }
            return Err(
                PairError::Unmatched {
                    file_name: names[k].clone(),
                    first: first.source().clone(),
                    second: second.source().clone(),
                },
            );
        },
    };
    assert(!exists|k: int| first_unclassifiable(paths, first@, second@, k));
    assert(in1@ =~= mate_flags(paths, first@));
    assert(in2@ =~= mate_flags(paths, second@));
    proof {
        assert forall|k: int| 0 <= k < g1@.len() implies {
            &&& file_name_of(#[trigger] views(g1@)[k]) is Some
            &&& regex_is_match(first@, name_of(views(g1@)[k]))
        } by {
            lemma_select_member(paths, in1@, k);
            let j = choose|j: int| 0 <= j < paths.len() && in1@[j] && select(paths, in1@)[k] == paths[j];
            assert(classifiable(paths[j], first@, second@));
        }
        assert forall|k: int| 0 <= k < g2@.len() implies {
            &&& file_name_of(#[trigger] views(g2@)[k]) is Some
            &&& regex_is_match(second@, name_of(views(g2@)[k]))
        } by {
            lemma_select_member(paths, in2@, k);
            let j = choose|j: int| 0 <= j < paths.len() && in2@[j] && select(paths, in2@)[k] == paths[j];
            assert(classifiable(paths[j], first@, second@));
        }
    }
    let ids1 = identities_of(&g1, first);
    let ids2 = identities_of(&g2, second);
    match check_pairing(first.source(), second.source(), &ids1, &ids2) {
        Ok(_) => {},
        Err(e) => return Err(e),
    }
    Ok(emit(&g1, &g2, interleave))
}

/// Infers the mate patterns from `argref` and pairs the candidate paths
/// with them. Paths are used as given: resolving them to absolute form is
/// file-system work left to the caller.
pub fn parse_filelist(filelist: &Vec<String>, argref: &ArgParser) -> (r: Result<Vec<String>, PairError>)
    ensures
        match inferred_sources(*argref) {
            Err(e) => paths_result(r) == Err::<Seq<Seq<char>>, PairFault>(e),
            Ok((a, b)) => paths_result(r) == pairing(views(filelist@), a, b, argref.interleave),
        },
{
    let (first, second) = infer_prefixes(argref)?;
    pair_files(filelist, &first, &second, argref.interleave)
}

/// For groups of equal size, validation succeeds exactly when their sets of
/// identities are equal; reordering either group's identities changes nothing.
pub proof fn lemma_validation_is_set_equality(
    first: Seq<char>,
    second: Seq<char>,
    ids1: Seq<Seq<char>>,
    ids2: Seq<Seq<char>>,
    reordered1: Seq<Seq<char>>,
    reordered2: Seq<Seq<char>>,
)
    requires
        ids1.len() == ids2.len(),
        reordered1.to_multiset() == ids1.to_multiset(),
        reordered2.to_multiset() == ids2.to_multiset(),
    ensures
        validation(first, second, ids1, ids2) is Ok <==> ids1.to_set() == ids2.to_set(),
        validation(first, second, reordered1, reordered2) == validation(first, second, ids1, ids2),
{
    ids1.to_multiset_ensures();
    ids2.to_multiset_ensures();
    reordered1.to_multiset_ensures();
    reordered2.to_multiset_ensures();
    assert forall|x: Seq<char>| reordered1.contains(x) <==> ids1.contains(x) by {
        assert(reordered1.to_multiset().count(x) == ids1.to_multiset().count(x));
    }
    assert forall|x: Seq<char>| reordered2.contains(x) <==> ids2.contains(x) by {
        assert(reordered2.to_multiset().count(x) == ids2.to_multiset().count(x));
    }
    assert(reordered1.to_set() =~= ids1.to_set());
    assert(reordered2.to_set() =~= ids2.to_set());
}

proof fn lemma_select_same_keep(items: Seq<Seq<char>>, k1: Seq<bool>, k2: Seq<bool>)
    requires
        forall|i: int| 0 <= i < items.len() ==> k1[i] == k2[i],
    ensures
        select(items, k1) == select(items, k2),
    decreases items.len(),
{
    if items.len() > 0 {
        lemma_select_same_keep(items.drop_last(), k1, k2);
    }
}

proof fn lemma_select_complement(items: Seq<Seq<char>>, k1: Seq<bool>, k2: Seq<bool>)
    requires
        forall|i: int| 0 <= i < items.len() ==> k1[i] != k2[i],
    ensures
        select(items, k1).len() + select(items, k2).len() == items.len(),
    decreases items.len(),
{
    if items.len() > 0 {
        lemma_select_complement(items.drop_last(), k1, k2);
    }
}

/// Where every file name matches exactly one of the two patterns (as with
/// two disjoint literal tokens), classification is a partition: the group
/// sizes add up to the number of candidates and no file is in both groups.
pub proof fn lemma_exclusive_tokens_partition(
    paths: Seq<Seq<char>>,
    first: Seq<char>,
    second: Seq<char>,
)
    requires
        forall|i: int|
            0 <= i < paths.len() ==> regex_is_match(first, name_of(#[trigger] paths[i]))
                != regex_is_match(second, name_of(paths[i])),
    ensures
        group(paths, first).len() + group(paths, second).len() == paths.len(),
        forall|f: Seq<char>| group(paths, first).contains(f) ==> !group(paths, second).contains(f),
{
    let k1 = mate_flags(paths, first);
    let k2 = mate_flags(paths, second);
    lemma_select_complement(paths, k1, k2);
    assert forall|f: Seq<char>| group(paths, first).contains(f) implies !group(paths, second).contains(f) by {
        let a = choose|a: int| 0 <= a < group(paths, first).len() && group(paths, first)[a] == f;
        lemma_select_member(paths, k1, a);
        let j = choose|j: int| 0 <= j < paths.len() && k1[j] && select(paths, k1)[a] == paths[j];
        if group(paths, second).contains(f) {
            let b = choose|b: int| 0 <= b < group(paths, second).len() && group(paths, second)[b] == f;
            lemma_select_member(paths, k2, b);
            let j2 = choose|j2: int| 0 <= j2 < paths.len() && k2[j2] && select(paths, k2)[b] == paths[j2];
            assert(regex_is_match(first, name_of(paths[j])) != regex_is_match(second, name_of(paths[j])));
        }
    }
}

/// The test that puts a path into the group of `pattern`.
pub open spec fn matcher(pattern: Seq<char>) -> spec_fn(Seq<char>) -> bool {
    |f: Seq<char>| regex_is_match(pattern, name_of(f))
}

proof fn lemma_group_is_filter(paths: Seq<Seq<char>>, pattern: Seq<char>)
    ensures
        group(paths, pattern) == paths.filter(matcher(pattern)),
    decreases paths.len(),
{
    reveal(Seq::filter);
    if paths.len() == 0 {
        assert(paths =~= Seq::<Seq<char>>::empty());
    } else {
        lemma_group_is_filter(paths.drop_last(), pattern);
        lemma_select_same_keep(
            paths.drop_last(),
            mate_flags(paths, pattern),
            mate_flags(paths.drop_last(), pattern),
        );
    }
}

proof fn lemma_filter_all(xs: Seq<Seq<char>>, pred: spec_fn(Seq<char>) -> bool)
    requires
        forall|i: int| 0 <= i < xs.len() ==> pred(#[trigger] xs[i]),
    ensures
        xs.filter(pred) == xs,
    decreases xs.len(),
{
    reveal(Seq::filter);
    if xs.len() > 0 {
        lemma_filter_all(xs.drop_last(), pred);
        assert(xs.drop_last().push(xs.last()) =~= xs);
    }
}

proof fn lemma_filter_none(xs: Seq<Seq<char>>, pred: spec_fn(Seq<char>) -> bool)
    requires
        forall|i: int| 0 <= i < xs.len() ==> !pred(#[trigger] xs[i]),
    ensures
        xs.filter(pred) == Seq::<Seq<char>>::empty(),
    decreases xs.len(),
{
    reveal(Seq::filter);
    if xs.len() > 0 {
        lemma_filter_none(xs.drop_last(), pred);
    } else {
        assert(xs =~= Seq::<Seq<char>>::empty());
    }
}

proof fn lemma_interleaved_index(first: Seq<Seq<char>>, second: Seq<Seq<char>>)
    requires
        first.len() == second.len(),
    ensures
        interleaved(first, second).len() == 2 * first.len(),
        forall|k: int|
            0 <= k < 2 * first.len() ==> #[trigger] interleaved(first, second)[k] == if k % 2 == 0 {
                first[k / 2]
            } else {
                second[k / 2]
            },
    decreases first.len(),
{
    if first.len() > 0 {
        lemma_interleaved_index(first.drop_last(), second.drop_last());
    }
}

proof fn lemma_filter_interleaved(
    first: Seq<Seq<char>>,
    second: Seq<Seq<char>>,
    pred: spec_fn(Seq<char>) -> bool,
)
    requires
        first.len() == second.len(),
        forall|i: int| 0 <= i < first.len() ==> pred(#[trigger] first[i]),
        forall|i: int| 0 <= i < second.len() ==> !pred(#[trigger] second[i]),
    ensures
        interleaved(first, second).filter(pred) == first,
    decreases first.len(),
{
    if first.len() == 0 {
        reveal(Seq::filter);
        assert(first =~= Seq::<Seq<char>>::empty());
    } else {
        let a = first.last();
        let b = second.last();
        lemma_filter_interleaved(first.drop_last(), second.drop_last(), pred);
        Seq::filter_distributes_over_add(
            interleaved(first.drop_last(), second.drop_last()),
            seq![a, b],
            pred,
        );
        reveal_with_fuel(Seq::filter, 3);
        assert(seq![a, b].drop_last() =~= seq![a]);
        assert(seq![a].drop_last() =~= Seq::<Seq<char>>::empty());
        assert(seq![a, b].filter(pred) =~= seq![a]);
        assert(first.drop_last().push(a) =~= first);
    }
}

proof fn lemma_filter_interleaved_second(
    first: Seq<Seq<char>>,
    second: Seq<Seq<char>>,
    pred: spec_fn(Seq<char>) -> bool,
)
    requires
        first.len() == second.len(),
        forall|i: int| 0 <= i < first.len() ==> !pred(#[trigger] first[i]),
        forall|i: int| 0 <= i < second.len() ==> pred(#[trigger] second[i]),
    ensures
        interleaved(first, second).filter(pred) == second,
    decreases first.len(),
{
    if first.len() == 0 {
        reveal(Seq::filter);
        assert(second =~= Seq::<Seq<char>>::empty());
    } else {
        let a = first.last();
        let b = second.last();
        lemma_filter_interleaved_second(first.drop_last(), second.drop_last(), pred);
        Seq::filter_distributes_over_add(
            interleaved(first.drop_last(), second.drop_last()),
            seq![a, b],
            pred,
        );
        reveal_with_fuel(Seq::filter, 3);
        assert(seq![a, b].drop_last() =~= seq![a]);
        assert(seq![a].drop_last() =~= Seq::<Seq<char>>::empty());
        assert(seq![a, b].filter(pred) =~= seq![b]);
        assert(second.drop_last().push(b) =~= second);
    }
}

proof fn lemma_first_unclassifiable_exists(
    paths: Seq<Seq<char>>,
    first: Seq<char>,
    second: Seq<char>,
    i: int,
)
    requires
        0 <= i < paths.len(),
        !classifiable(paths[i], first, second),
    ensures
        exists|k: int| first_unclassifiable(paths, first, second, k),
    decreases i,
{
    if exists|j: int| 0 <= j < i && !classifiable(#[trigger] paths[j], first, second) {
        let j = choose|j: int| 0 <= j < i && !classifiable(#[trigger] paths[j], first, second);
        lemma_first_unclassifiable_exists(paths, first, second, j);
    } else {
        assert(first_unclassifiable(paths, first, second, i));
    }
}

/// Where no file matches both patterns, pairing is idempotent: pairing the
/// output of a successful run again yields the same two groups and the same
/// output.
pub proof fn lemma_pairing_idempotent(
    paths: Seq<Seq<char>>,
    first: Seq<char>,
    second: Seq<char>,
    interleave: bool,
)
    requires
        pairing(paths, first, second, interleave) is Ok,
        forall|i: int|
            0 <= i < paths.len() ==> !(regex_is_match(first, name_of(#[trigger] paths[i]))
                && regex_is_match(second, name_of(paths[i]))),
    ensures
        ({
            let out = pairing(paths, first, second, interleave)->Ok_0;
            &&& group(out, first) == group(paths, first)
            &&& group(out, second) == group(paths, second)
            &&& pairing(out, first, second, interleave) == pairing(paths, first, second, interleave)
        }),
{
    assert forall|i: int| 0 <= i < paths.len() implies classifiable(#[trigger] paths[i], first, second) by {
        if !classifiable(paths[i], first, second) {
            lemma_first_unclassifiable_exists(paths, first, second, i);
        }
    }
    let g1 = group(paths, first);
    let g2 = group(paths, second);
    let out = emitted(g1, g2, interleave);
    assert(identities(g1, first).len() == g1.len());
    assert(identities(g2, second).len() == g2.len());
    assert(g1.len() == g2.len());
    assert forall|k: int| 0 <= k < g1.len() implies classifiable(#[trigger] g1[k], first, second)
        && matcher(first)(g1[k]) && !matcher(second)(g1[k]) by {
        lemma_select_member(paths, mate_flags(paths, first), k);
    }
    assert forall|k: int| 0 <= k < g2.len() implies classifiable(#[trigger] g2[k], first, second)
        && matcher(second)(g2[k]) && !matcher(first)(g2[k]) by {
        lemma_select_member(paths, mate_flags(paths, second), k);
    }
    lemma_group_is_filter(out, first);
    lemma_group_is_filter(out, second);
    if interleave {
        lemma_interleaved_index(g1, g2);
        lemma_filter_interleaved(g1, g2, matcher(first));
        lemma_filter_interleaved_second(g1, g2, matcher(second));
        assert forall|k: int| 0 <= k < out.len() implies classifiable(#[trigger] out[k], first, second) by {
            if k % 2 == 0 {
                assert(out[k] == g1[k / 2]);
            } else {
                assert(out[k] == g2[k / 2]);
            }
        }
    } else {
        Seq::filter_distributes_over_add(g1, g2, matcher(first));
        Seq::filter_distributes_over_add(g1, g2, matcher(second));
        lemma_filter_all(g1, matcher(first));
        lemma_filter_none(g2, matcher(first));
        lemma_filter_none(g1, matcher(second));
        lemma_filter_all(g2, matcher(second));
        assert(g1 + Seq::<Seq<char>>::empty() =~= g1);
        assert(Seq::<Seq<char>>::empty() + g2 =~= g2);
        assert forall|k: int| 0 <= k < out.len() implies classifiable(#[trigger] out[k], first, second) by {
            if k < g1.len() {
                assert(out[k] == g1[k]);
            } else {
                assert(out[k] == g2[k - g1.len()]);
            }
        }
    }
    lemma_group_is_filter(paths, first);
    lemma_group_is_filter(paths, second);
    assert(!exists|k: int| first_unclassifiable(out, first, second, k));
}

} // verus!
