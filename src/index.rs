//! The template index: a mapping from lowercase template names to template
//! texts, kept in ascending order of name.
use vstd::prelude::*;

use crate::order::{
    is_prefix, lemma_lex_irreflexive, lemma_lex_total, lemma_lex_transitive,
    lemma_sorted_no_duplicates, lex_less, lex_lt, sorted_strict,
};
use crate::text::{
    chars_of, ends_with, lemma_string_views_push, lower_of, lowercase, string_views, strip_suffix,
    trim, trimmed,
};

verus! {

/// The file-name ending that marks a template.
pub const GITIGNORE_SUFFIX: &'static str = ".gitignore";

/// The characters of `GITIGNORE_SUFFIX`.
pub open spec fn suffix_chars() -> Seq<char> {
    seq!['.', 'g', 'i', 't', 'i', 'g', 'n', 'o', 'r', 'e']
}

/// The names of a sequence of entries.
pub open spec fn names_of(es: Seq<(String, String)>) -> Seq<Seq<char>> {
    es.map_values(|e: (String, String)| e.0@)
}

/// The mapping that a sequence of entries stands for; of two entries with
/// one name, the later one counts.
pub open spec fn map_of(es: Seq<(String, String)>) -> Map<Seq<char>, Seq<char>>
    decreases es.len(),
{
    if es.len() == 0 {
        Map::empty()
    } else {
        map_of(es.drop_last()).insert(es.last().0@, es.last().1@)
    }
}

/// An immutable mapping from lowercase template name to template text.
pub struct TemplateIndex {
    entries: Vec<(String, String)>,
}

impl TemplateIndex {
    #[verifier::type_invariant]
    closed spec fn wf(&self) -> bool {
        sorted_strict(names_of(self.entries@))
    }
}

impl View for TemplateIndex {
    type V = Map<Seq<char>, Seq<char>>;

    closed spec fn view(&self) -> Map<Seq<char>, Seq<char>> {
        map_of(self.entries@)
    }
}

/// The names of the entries are the keys of their mapping.
proof fn lemma_map_of_dom(es: Seq<(String, String)>)
    ensures
        map_of(es).dom() == names_of(es).to_set(),
        map_of(es).dom().finite(),
    decreases es.len(),
{
    if es.len() > 0 {
        lemma_map_of_dom(es.drop_last());
        assert(names_of(es.drop_last()) =~= names_of(es).drop_last());
        assert(map_of(es).dom() =~= names_of(es).to_set()) by {
            assert forall|x: Seq<char>| names_of(es).contains(x) implies names_of(
                es.drop_last(),
            ).contains(x) || x == es.last().0@ by {
                let j = choose|j: int| 0 <= j < names_of(es).len() && names_of(es)[j] == x;
                if j < es.len() - 1 {
                    assert(names_of(es.drop_last())[j] == x);
                }
            }
            assert forall|x: Seq<char>| names_of(es.drop_last()).contains(x) implies names_of(
                es,
            ).contains(x) by {
                let j = choose|j: int|
                    0 <= j < names_of(es.drop_last()).len() && names_of(es.drop_last())[j] == x;
                assert(names_of(es)[j] == x);
            }
            assert(names_of(es)[es.len() - 1] == es.last().0@);
        }
    } else {
        assert(map_of(es).dom() =~= names_of(es).to_set());
    }
    vstd::seq_lib::seq_to_set_is_finite(names_of(es));
}

/// In sorted entries, each entry's name maps to its text.
proof fn lemma_map_of_at(es: Seq<(String, String)>, i: int)
    requires
        sorted_strict(names_of(es)),
        0 <= i < es.len(),
    ensures
        map_of(es).contains_key(es[i].0@),
        map_of(es)[es[i].0@] == es[i].1@,
    decreases es.len(),
{
    if i < es.len() - 1 {
        let d = es.drop_last();
        assert(names_of(d) =~= names_of(es).drop_last());
        assert(d[i] == es[i]);
        lemma_map_of_at(d, i);
        assert(names_of(es)[i] == es[i].0@);
        assert(names_of(es)[es.len() - 1] == es.last().0@);
        lemma_lex_irreflexive(es[i].0@);
    }
}

/// The position at which `k` belongs among the sorted entries.
fn position(es: &Vec<(String, String)>, k: &Vec<char>) -> (p: usize)
    ensures
        p <= es.len(),
        forall|j: int| 0 <= j < p ==> lex_lt(#[trigger] names_of(es@)[j], k@),
        p < es.len() ==> !lex_lt(names_of(es@)[p as int], k@),
{
    let mut i: usize = 0;
    while i < es.len()
        invariant
            i <= es.len(),
            forall|j: int| 0 <= j < i ==> lex_lt(#[trigger] names_of(es@)[j], k@),
        decreases es.len() - i,
    {
        let c = chars_of(es[i].0.as_str());
        if !lex_less(&c, k) {
            return i;
        }
        i = i + 1;
    }
    i
}

/// Adds `key` with `text` to sorted entries, replacing an entry of that name.
fn insert_sorted(es: &mut Vec<(String, String)>, key: String, text: String)
    requires
        sorted_strict(names_of(old(es)@)),
    ensures
        sorted_strict(names_of(final(es)@)),
        map_of(final(es)@) == map_of(old(es)@).insert(key@, text@),
{
    let ghost k = key@;
    let ghost t = text@;
    let ghost old_es = es@;
    let kc = chars_of(key.as_str());
    let p = position(es, &kc);
    if p < es.len() && es[p].0 == key {
        es.set(p, (key, text));
        let ghost new_es = es@;
        proof {
            lemma_map_of_dom(old_es);
            lemma_map_of_dom(new_es);
        }
        assert(names_of(new_es) =~= names_of(old_es));
        assert forall|x: Seq<char>| #[trigger]
            map_of(new_es).contains_key(x) == map_of(old_es).insert(k, t).contains_key(x) by {
            if names_of(old_es).contains(x) {
                assert(names_of(new_es).contains(x));
            }
        }
        assert forall|x: Seq<char>| #[trigger]
            map_of(new_es).contains_key(x) implies map_of(new_es)[x] == map_of(old_es).insert(
            k,
            t,
        )[x] by {
            let j = choose|j: int| 0 <= j < names_of(new_es).len() && names_of(new_es)[j] == x;
            lemma_map_of_at(new_es, j);
            if x != k {
                assert(j != p);
                lemma_map_of_at(old_es, j);
            }
        }
        assert(map_of(new_es) =~= map_of(old_es).insert(k, t));
    } else {
        proof {
            if p < es.len() {
                lemma_lex_total(names_of(old_es)[p as int], k);
            }
        }
        es.insert(p, (key, text));
        let ghost new_es = es@;
        let ghost ns = names_of(new_es);
        let ghost os = names_of(old_es);
        proof {
            lemma_map_of_dom(old_es);
            lemma_map_of_dom(new_es);
        }
        assert(ns =~= os.insert(p as int, k));
        assert forall|i: int, j: int| 0 <= i < j < ns.len() implies lex_lt(
            #[trigger] ns[i],
            #[trigger] ns[j],
        ) by {
            if j < p {
            } else if j == p {
            } else if i < p {
                assert(os[j - 1] == ns[j]);
                if j - 1 > p {
                    lemma_lex_transitive(k, os[p as int], os[j - 1]);
                }
                lemma_lex_transitive(ns[i], k, ns[j]);
            } else if i == p {
                if j - 1 > p {
                    lemma_lex_transitive(k, os[p as int], os[j - 1]);
                }
            } else {
                assert(os[i - 1] == ns[i] && os[j - 1] == ns[j]);
            }
        }
        assert forall|x: Seq<char>| #[trigger]
            map_of(new_es).contains_key(x) == map_of(old_es).insert(k, t).contains_key(x) by {
            if names_of(old_es).contains(x) {
                let j = choose|j: int| 0 <= j < os.len() && os[j] == x;
                if j < p {
                    assert(ns[j] == x);
                } else {
                    assert(ns[j + 1] == x);
                }
            }
            if x == k {
                assert(ns[p as int] == x);
            }
            if names_of(new_es).contains(x) && x != k {
                let j = choose|j: int| 0 <= j < ns.len() && ns[j] == x;
                if j < p {
                    assert(os[j] == x);
                } else {
                    assert(os[j - 1] == x);
                }
            }
        }
        assert forall|x: Seq<char>| #[trigger]
            map_of(new_es).contains_key(x) implies map_of(new_es)[x] == map_of(old_es).insert(
            k,
            t,
        )[x] by {
            let j = choose|j: int| 0 <= j < ns.len() && ns[j] == x;
            lemma_map_of_at(new_es, j);
            if j < p {
                assert(new_es[j] == old_es[j]);
                lemma_map_of_at(old_es, j);
                lemma_lex_irreflexive(k);
            } else if j > p {
                assert(new_es[j] == old_es[j - 1]);
                lemma_map_of_at(old_es, j - 1);
                if j - 1 > p {
                    lemma_lex_transitive(k, os[p as int], os[j - 1]);
                }
                lemma_lex_irreflexive(k);
            }
        }
        assert(map_of(new_es) =~= map_of(old_es).insert(k, t));
    }
}

/// The view of each (file name, text) pair.
pub open spec fn file_views(files: Seq<(&str, &str)>) -> Seq<(Seq<char>, Seq<char>)> {
    files.map_values(|f: (&str, &str)| (f.0@, f.1@))
}

/// The index key of a template file name: the name without its `.gitignore`
/// ending, in lowercase; none where the name lacks that ending or is nothing
/// but it.
pub open spec fn template_key(file_name: Seq<char>) -> Option<Seq<char>> {
    if ends_with(file_name, suffix_chars()) && file_name.len() > suffix_chars().len() {
        Some(lower_of(file_name.subrange(0, file_name.len() - suffix_chars().len())))
    } else {
        None
    }
}

/// The mapping built from template files in order: each template file adds
/// its key and text, replacing what an earlier file of that key added.
pub open spec fn index_spec(files: Seq<(Seq<char>, Seq<char>)>) -> Map<Seq<char>, Seq<char>>
    decreases files.len(),
{
    if files.len() == 0 {
        Map::empty()
    } else {
        let m = index_spec(files.drop_last());
        match template_key(files.last().0) {
            Some(k) => m.insert(k, files.last().1),
            None => m,
        }
    }
}

/// Builds the index from (file name, text) pairs: every file whose name ends
/// in `.gitignore`, with something before that ending, is a template; its key
/// is that part of the name in lowercase. Of two files with one key, the
/// later one wins.
pub fn build_index(files: &[(&str, &str)]) -> (r: TemplateIndex)
    ensures
        r@ == index_spec(file_views(files@)),
{
    let mut es: Vec<(String, String)> = Vec::new();
    let mut i: usize = 0;
    proof {
        reveal_strlit(".gitignore");
    }
    assert(GITIGNORE_SUFFIX@ == suffix_chars());
    assert(file_views(files@).take(0) =~= Seq::<(Seq<char>, Seq<char>)>::empty());
    while i < files.len()
        invariant
            i <= files.len(),
            sorted_strict(names_of(es@)),
            map_of(es@) == index_spec(file_views(files@).take(i as int)),
            GITIGNORE_SUFFIX@ == suffix_chars(),
        decreases files.len() - i,
    {
        let (name, text) = files[i];
        let ghost fv = file_views(files@);
        assert(fv.take(i + 1).drop_last() =~= fv.take(i as int));
        assert(fv.take(i + 1).last() == (name@, text@));
        match strip_suffix(name, GITIGNORE_SUFFIX) {
            Some(bare) => {
                assert(name@.subrange(name@.len() - suffix_chars().len(), name@.len() as int)
                    =~= suffix_chars());
                if !bare.is_empty() {
                    assert(bare@ =~= name@.subrange(0, name@.len() - suffix_chars().len()));
                    let key = lowercase(bare);
                    assert(template_key(name@) == Some(key@));
                    insert_sorted(&mut es, key, text.to_owned());
                } else {
                    assert(template_key(name@) is None);
                }
            },
            None => {
                assert(template_key(name@) is None);
            },
        }
        i = i + 1;
    }
    assert(file_views(files@).take(files.len() as int) =~= file_views(files@));
    TemplateIndex { entries: es }
}

/// The names whose prefix is `k`.
pub open spec fn candidates(m: Map<Seq<char>, Seq<char>>, k: Seq<char>) -> Set<Seq<char>> {
    m.dom().filter(|x: Seq<char>| k.is_prefix_of(x))
}

/// The text that a lookup of the lowercase key `k` finds: the template of
/// that key, or else the one template whose key begins with `k`.
pub open spec fn resolve_key(m: Map<Seq<char>, Seq<char>>, k: Seq<char>) -> Option<Seq<char>> {
    if m.contains_key(k) {
        Some(m[k])
    } else if candidates(m, k).len() == 1 {
        Some(m[candidates(m, k).choose()])
    } else {
        None
    }
}

/// The text that a lookup of `name` finds: none for a name that is empty or
/// all whitespace, else what its lowercase form finds.
pub open spec fn resolve(m: Map<Seq<char>, Seq<char>>, name: Seq<char>) -> Option<Seq<char>> {
    if trimmed(name).len() == 0 {
        None
    } else {
        resolve_key(m, lower_of(name))
    }
}

/// Why a lookup found no template.
#[derive(Debug, PartialEq, Eq)]
pub enum LookupError {
    /// The name is empty or all whitespace.
    EmptyName,
    /// No template name begins with the name.
    NotFound(String),
    /// Several template names begin with the name, which is none of them;
    /// they are listed in ascending order.
    Ambiguous(String, Vec<String>),
}

/// The elements of `v` with `sep` between each two.
pub open spec fn join(v: Seq<Seq<char>>, sep: Seq<char>) -> Seq<char>
    decreases v.len(),
{
    if v.len() == 0 {
        seq![]
    } else if v.len() == 1 {
        v[0]
    } else {
        join(v.drop_last(), sep) + sep + v.last()
    }
}

impl LookupError {
    /// The message that describes the error.
    pub open spec fn message_spec(&self) -> Seq<char> {
        match self {
            LookupError::EmptyName => "empty language name"@,
            LookupError::NotFound(n) => "no template found for language \""@ + n@ + "\""@,
            LookupError::Ambiguous(n, v) => "ambiguous language \""@ + n@ + "\"; matches: "@ + join(
                string_views(v@),
                ", "@,
            ),
        }
    }

    /// The message that describes the error.
    pub fn message(&self) -> (r: String)
        ensures
            r@ == self.message_spec(),
    {
        match self {
            LookupError::EmptyName => "empty language name".to_owned(),
            LookupError::NotFound(n) => {
                let mut out = "no template found for language \"".to_owned();
                out.append(n.as_str());
                out.append("\"");
                out
            },
            LookupError::Ambiguous(n, v) => {
                let mut out = "ambiguous language \"".to_owned();
                out.append(n.as_str());
                out.append("\"; matches: ");
                let ghost head = out@;
                let ghost sv = string_views(v@);
                assert(sv.take(0) =~= Seq::<Seq<char>>::empty());
                assert(head + join(sv.take(0), ", "@) =~= head);
                let mut a: usize = 0;
                while a < v.len()
                    invariant
                        a <= v.len(),
                        sv == string_views(v@),
                        out@ == head + join(sv.take(a as int), ", "@),
                    decreases v.len() - a,
                {
                    let ghost before = out@;
                    if a > 0 {
                        out.append(", ");
                    }
                    out.append(v[a].as_str());
                    proof {
                        assert(sv.take(a + 1).drop_last() =~= sv.take(a as int));
                        assert(sv.take(a + 1).last() == v@[a as int]@);
                        if a == 0 {
                            assert(before =~= head);
                        }
                    }
                    a = a + 1;
                }
                assert(sv.take(v.len() as int) =~= sv);
                out
            },
        }
    }
}

/// The finite set of names in an index.
pub proof fn lemma_names_finite(index: &TemplateIndex)
    ensures
        index@.dom().finite(),
{
    lemma_map_of_dom(index.entries@);
}

/// What a lookup of `lang` in `m` returns: `EmptyName` for a name that is
/// empty or all whitespace; the text that `resolve` finds, where it finds one;
/// `NotFound` where no key begins with the lowercase name; `Ambiguous`, with
/// all those keys in ascending order, where several do and none equals it.
pub open spec fn lookup_outcome(
    m: Map<Seq<char>, Seq<char>>,
    lang: Seq<char>,
    r: Result<&str, LookupError>,
) -> bool {
    &&& (trimmed(lang).len() == 0 ==> r matches Err(LookupError::EmptyName))
    &&& (resolve(m, lang) matches Some(t) ==> (r matches Ok(x) && x@ == t))
    &&& (trimmed(lang).len() > 0 && candidates(m, lower_of(lang)).len() == 0 ==> (r matches Err(
        LookupError::NotFound(n),
    ) && n@ == lang))
    &&& (trimmed(lang).len() > 0 && !m.contains_key(lower_of(lang)) && candidates(
        m,
        lower_of(lang),
    ).len() >= 2 ==> (r matches Err(LookupError::Ambiguous(n, v)) && n@ == lang && sorted_strict(
        string_views(v@),
    ) && string_views(v@).to_set() == candidates(m, lower_of(lang))))
}

/// Looks a template up by name, ignoring case: a name that is empty or all
/// whitespace fails; a name that is a key finds that key's text; otherwise a
/// name that begins exactly one key finds that key's text.
pub fn get_template<'a>(index: &'a TemplateIndex, lang: &str) -> (r: Result<&'a str, LookupError>)
    ensures
        lookup_outcome(index@, lang@, r),
{
    if trim(lang).is_empty() {
        return Err(LookupError::EmptyName);
    }
    let key = lowercase(lang);
    find_template(index, key.as_str(), lang)
}

/// Looks each name up in turn and stops at the first that fails: all the
/// texts, in order, or the error of the first name that finds none.
pub fn get_templates<'a>(index: &'a TemplateIndex, names: &[String]) -> (r: Result<
    Vec<&'a str>,
    LookupError,
>)
    ensures
        (forall|i: int| 0 <= i < names@.len() ==> resolve(index@, #[trigger] names@[i]@) is Some)
            ==> r is Ok,
        match r {
            Ok(v) => v@.len() == names@.len() && forall|i: int|
                0 <= i < names@.len() ==> resolve(index@, #[trigger] names@[i]@) == Some(v@[i]@),
            Err(e) => exists|i: int|
                0 <= i < names@.len() && resolve(index@, #[trigger] names@[i]@) is None
                    && lookup_outcome(index@, names@[i]@, Err(e)) && forall|j: int|
                    0 <= j < i ==> resolve(index@, #[trigger] names@[j]@) is Some,
        },
{
    let mut v: Vec<&'a str> = Vec::new();
    let mut i: usize = 0;
    while i < names.len()
        invariant
            i <= names.len(),
            v@.len() == i,
            forall|j: int| 0 <= j < i ==> resolve(index@, #[trigger] names@[j]@) == Some(v@[j]@),
        decreases names.len() - i,
    {
        match get_template(index, names[i].as_str()) {
            Ok(t) => {
                v.push(t);
            },
            Err(e) => {
                return Err(e);
            },
        }
        i = i + 1;
    }
    Ok(v)
}

/// Looks up the lowercase key `key` of the name `lang`: the template of that
/// key, or else the one template whose key begins with `key`. The errors
/// carry `lang`.
pub fn find_template<'a>(index: &'a TemplateIndex, key: &str, lang: &str) -> (r: Result<
    &'a str,
    LookupError,
>)
    ensures
        resolve_key(index@, key@) matches Some(t) ==> (r matches Ok(x) && x@ == t),
        candidates(index@, key@).len() == 0 ==> (r matches Err(LookupError::NotFound(n)) && n@
            == lang@),
        !index@.contains_key(key@) && candidates(index@, key@).len() >= 2 ==> (r matches Err(
            LookupError::Ambiguous(n, v),
        ) && n@ == lang@ && sorted_strict(string_views(v@)) && string_views(v@).to_set()
            == candidates(index@, key@)),
{
    proof {
        use_type_invariant(index);
        lemma_map_of_dom(index.entries@);
    }
    let owned = key.to_owned();
    let kc = chars_of(key);
    let ghost k = key@;
    let ghost es = index.entries@;
    let ghost ns = names_of(es);
    let ghost m = index@;
    let mut found: Vec<usize> = Vec::new();
    let mut i: usize = 0;
    while i < index.entries.len()
        invariant
            i <= es.len(),
            es == index.entries@,
            ns == names_of(es),
            m == map_of(es),
            m.dom() == ns.to_set(),
            m.dom().finite(),
            kc@ == k,
            key@ == k,
            owned@ == k,
            sorted_strict(ns),
            forall|j: int| 0 <= j < i ==> ns[j] != k,
            forall|a: int|
                0 <= a < found.len() ==> found[a] < i && k.is_prefix_of(ns[found[a] as int]),
            forall|a: int, b: int| 0 <= a < b < found.len() ==> found[a] < found[b],
            forall|j: int|
                0 <= j < i && k.is_prefix_of(#[trigger] ns[j]) ==> exists|a: int|
                    0 <= a < found.len() && found[a] == j,
        decreases es.len() - i,
    {
        if index.entries[i].0 == owned {
            proof {
                lemma_map_of_at(es, i as int);
                assert(ns[i as int] == k);
                assert(k.subrange(0, k.len() as int) =~= k);
                assert(candidates(m, k).contains(k));
                assert(candidates(m, k).finite());
            }
            return Ok(index.entries[i].1.as_str());
        }
        let c = chars_of(index.entries[i].0.as_str());
        let ghost f0 = found@;
        if is_prefix(&kc, &c) {
            found.push(i);
        }
        proof {
            assert(ns[i as int] == c@);
            assert forall|j: int| 0 <= j < i + 1 && k.is_prefix_of(#[trigger] ns[j]) implies exists|
                a: int,
            | 0 <= a < found.len() && found[a] == j by {
                if j < i {
                    let a = choose|a: int| 0 <= a < f0.len() && f0[a] == j;
                    assert(found[a] == j);
                } else {
                    assert(found[found.len() - 1] == j);
                }
            }
        }
        i = i + 1;
    }
    let ghost fs = found@.map_values(|j: usize| ns[j as int]);
    proof {
        assert(!m.contains_key(k)) by {
            if ns.to_set().contains(k) {
                let j = choose|j: int| 0 <= j < ns.len() && ns[j] == k;
            }
        }
        assert(sorted_strict(fs)) by {
            assert forall|a: int, b: int| 0 <= a < b < fs.len() implies lex_lt(
                #[trigger] fs[a],
                #[trigger] fs[b],
            ) by {
                assert(found[a] < found[b]);
            }
        }
        lemma_sorted_no_duplicates(fs);
        fs.unique_seq_to_set();
        assert(fs.to_set() =~= candidates(m, k)) by {
            assert forall|x: Seq<char>| #[trigger] candidates(m, k).contains(x) implies fs.contains(
                x,
            ) by {
                let j = choose|j: int| 0 <= j < ns.len() && ns[j] == x;
                let a = choose|a: int| 0 <= a < found.len() && found[a] == j;
                assert(fs[a] == x);
            }
            assert forall|x: Seq<char>| fs.contains(x) implies #[trigger] candidates(m, k).contains(
                x,
            ) by {
                let a = choose|a: int| 0 <= a < fs.len() && fs[a] == x;
                assert(ns[found[a] as int] == x);
                assert(ns.to_set().contains(x));
            }
        }
    }
    if found.len() == 0 {
        Err(LookupError::NotFound(lang.to_owned()))
    } else if found.len() == 1 {
        proof {
            assert(candidates(m, k) =~= set![fs[0]]);
            assert(candidates(m, k).contains(candidates(m, k).choose()));
            lemma_map_of_at(es, found[0] as int);
        }
        Ok(index.entries[found[0]].1.as_str())
    } else {
        let mut v: Vec<String> = Vec::new();
        let mut a: usize = 0;
        while a < found.len()
            invariant
                a <= found.len(),
                es == index.entries@,
                fs == found@.map_values(|j: usize| names_of(es)[j as int]),
                forall|b: int| 0 <= b < found.len() ==> found[b] < es.len(),
                string_views(v@) == fs.take(a as int),
            decreases found.len() - a,
        {
            let name = index.entries[found[a]].0.clone();
            assert(name@ == fs[a as int]);
            let ghost v0 = v@;
            v.push(name);
            proof {
                lemma_string_views_push(v0, name);
                assert(fs.take(a as int).push(fs[a as int]) =~= fs.take(a + 1));
            }
            a = a + 1;
        }
        assert(fs.take(found.len() as int) =~= fs);
        Err(LookupError::Ambiguous(lang.to_owned(), v))
    }
}

/// All template names, in ascending order.
pub fn list_languages(index: &TemplateIndex) -> (r: Vec<String>)
    ensures
        sorted_strict(string_views(r@)),
        string_views(r@).to_set() == index@.dom(),
{
    proof {
        use_type_invariant(index);
        lemma_map_of_dom(index.entries@);
    }
    let mut v: Vec<String> = Vec::new();
    let mut i: usize = 0;
    while i < index.entries.len()
        invariant
            i <= index.entries.len(),
            string_views(v@) == names_of(index.entries@).take(i as int),
        decreases index.entries.len() - i,
    {
        let name = index.entries[i].0.clone();
        assert(name@ == names_of(index.entries@)[i as int]);
        let ghost v0 = v@;
        v.push(name);
        proof {
            lemma_string_views_push(v0, name);
            assert(names_of(index.entries@).take(i as int).push(name@) =~= names_of(
                index.entries@,
            ).take(i + 1));
        }
        i = i + 1;
    }
    assert(names_of(index.entries@).take(i as int) =~= names_of(index.entries@));
    v
}

/// A name that is a key once in lowercase finds that key's text.
pub proof fn lemma_exact_name_found(m: Map<Seq<char>, Seq<char>>, name: Seq<char>)
    requires
        trimmed(name).len() > 0,
        m.contains_key(lower_of(name)),
    ensures
        resolve(m, name) == Some(m[lower_of(name)]),
{
}

/// Lookup ignores case: two names, neither empty nor all whitespace, with one
/// lowercase form find the same text, or both find none.
pub proof fn lemma_lookup_ignores_case(m: Map<Seq<char>, Seq<char>>, a: Seq<char>, b: Seq<char>)
    requires
        trimmed(a).len() > 0,
        trimmed(b).len() > 0,
        lower_of(a) == lower_of(b),
    ensures
        resolve(m, a) == resolve(m, b),
{
}

/// A name that begins exactly one key finds that key's text.
pub proof fn lemma_unique_prefix_found(
    m: Map<Seq<char>, Seq<char>>,
    name: Seq<char>,
    key: Seq<char>,
)
    requires
        trimmed(name).len() > 0,
        candidates(m, lower_of(name)) == set![key],
    ensures
        resolve(m, name) == Some(m[key]),
{
    let k = lower_of(name);
    assert(candidates(m, k).contains(key));
    if m.contains_key(k) {
        assert(k.subrange(0, k.len() as int) =~= k);
        assert(candidates(m, k).contains(k));
    } else {
        assert(set![key].len() == 1);
        assert(candidates(m, k).contains(candidates(m, k).choose()));
    }
}

} // verus!
