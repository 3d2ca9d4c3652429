//! The word sets by which packages are compared: normalized topics, name
//! tokens and stemmed description keywords. Each set is a sequence without
//! repetitions, in order of first occurrence.
use vstd::prelude::*;
use crate::api::Library;
use crate::stopwords::{common_word_list, common_words, is_topic_stopword, str_views, topic_stopwords};
use crate::text::{
    byte_len, chars_of, chars_start_with, has_prefix, lowercase, str_byte_len, str_eq,
    split_words, substring, to_lowercase, trim_end_char, trim_end_char_len, trim_end_seq,
    trim_end_seq_len, views, word_pieces,
};

verus! {

/// `s` lowercased, with trailing `s` characters removed when at least three bytes remain.
pub open spec fn spec_normalize_topic(t: Seq<char>) -> Seq<char> {
    let lower = lowercase(t);
    let trimmed = trim_end_char(lower, 's');
    if byte_len(trimmed) >= 3 {
        trimmed
    } else {
        lower
    }
}

/// Lowercases a topic and drops a plural `s` (when at least three bytes remain).
pub fn normalize_topic(t: &str) -> (r: String)
    ensures
        r@ == spec_normalize_topic(t@),
{
    let lower = to_lowercase(t);
    let v = chars_of(lower.as_str());
    let n = v.len();
    let k = trim_end_char_len(&v, n, 's');
    assert(v@.take(n as int) =~= v@);
    let trimmed = substring(lower.as_str(), 0, k);
    if str_byte_len(trimmed.as_str()) >= 3 {
        trimmed
    } else {
        lower
    }
}

/// Membership of a string slice among the views of a vector of strings.
pub fn strings_contain(v: &Vec<String>, s: &str) -> (r: bool)
    ensures
        r == views(v@).contains(s@),
{
    let n = v.len();
    let mut i: usize = 0;
    while i < n
        invariant
            n == v@.len(),
            i <= n,
            forall|j: int| 0 <= j < i ==> v@[j]@ != s@,
        decreases n - i,
    {
        if str_eq(v[i].as_str(), s) {
            assert(views(v@)[i as int] == s@);
            return true;
        }
        i = i + 1;
    }
    assert forall|j: int| 0 <= j < views(v@).len() implies views(v@)[j] != s@ by {
        assert(views(v@)[j] == v@[j]@);
    }
    false
}

/// A normalized topic counts when it is not a stopword and is longer than one byte.
pub open spec fn topic_counts(t: Seq<char>) -> bool {
    !topic_stopwords().contains(t) && byte_len(t) > 1
}

/// The distinct counting normalized topics of `ts`.
pub open spec fn topic_set(ts: Seq<Seq<char>>) -> Seq<Seq<char>>
    decreases ts.len(),
{
    if ts.len() == 0 {
        Seq::empty()
    } else {
        let prev = topic_set(ts.drop_last());
        let t = spec_normalize_topic(ts.last());
        if topic_counts(t) && !prev.contains(t) {
            prev.push(t)
        } else {
            prev
        }
    }
}

/// The meaningful topics of a package: its repository topics, normalized,
/// without stopwords and one-byte words.
pub open spec fn spec_meaningful_topics(lib: &Library) -> Seq<Seq<char>> {
    match &lib.github {
        Some(g) => topic_set(views(g.topics@)),
        None => Seq::empty(),
    }
}

/// Appends `w` to `out` unless it is already there.
fn push_new(out: &mut Vec<String>, w: String)
    ensures
        views(final(out)@) == (if views(old(out)@).contains(w@) {
            views(old(out)@)
        } else {
            views(old(out)@).push(w@)
        }),
{
    if !strings_contain(out, w.as_str()) {
        let ghost before = out@;
        out.push(w);
        assert(views(out@) =~= views(before).push(w@));
    }
}

pub fn meaningful_topics(lib: &Library) -> (r: Vec<String>)
    ensures
        views(r@) == spec_meaningful_topics(lib),
{
    let mut out: Vec<String> = Vec::new();
    match &lib.github {
        None => {
            assert(views(out@) =~= Seq::<Seq<char>>::empty());
            out
        },
        Some(g) => {
            let n = g.topics.len();
            let mut i: usize = 0;
            assert(views(g.topics@).take(0) =~= Seq::<Seq<char>>::empty());
            assert(views(out@) =~= Seq::<Seq<char>>::empty());
            while i < n
                invariant
                    n == g.topics@.len(),
                    i <= n,
                    views(out@) == topic_set(views(g.topics@).take(i as int)),
                decreases n - i,
            {
                let t = normalize_topic(g.topics[i].as_str());
                let keep = !is_topic_stopword(t.as_str()) && str_byte_len(t.as_str()) > 1;
                proof {
                    let s = views(g.topics@).take(i + 1);
                    assert(s.drop_last() =~= views(g.topics@).take(i as int));
                    assert(s.last() == g.topics@[i as int]@);
                }
                if keep {
                    push_new(&mut out, t);
                }
                i = i + 1;
            }
            assert(views(g.topics@).take(n as int) =~= views(g.topics@));
            out
        },
    }
}

/// The stem of a word: trailing `s`, then repeated `tion`, `ing`, `ed` and `e`
/// endings removed, then at most the first five characters.
pub open spec fn spec_stem_5(w: Seq<char>) -> Seq<char> {
    let t = trim_end_char(
        trim_end_seq(
            trim_end_seq(trim_end_seq(trim_end_char(w, 's'), "tion"@), "ing"@),
            "ed"@,
        ),
        'e',
    );
    if t.len() < 5 {
        t
    } else {
        t.take(5)
    }
}

/// A naive stemmer, so that variants such as animated/animation/animations share a stem.
pub fn stem_5(w: &str) -> (r: String)
    ensures
        r@ == spec_stem_5(w@),
{
    let v = chars_of(w);
    let n = v.len();
    let tion = chars_of("tion");
    let ing = chars_of("ing");
    let ed = chars_of("ed");
    proof {
        reveal_strlit("tion");
        reveal_strlit("ing");
        reveal_strlit("ed");
    }
    let k1 = trim_end_char_len(&v, n, 's');
    let k2 = trim_end_seq_len(&v, k1, &tion);
    let k3 = trim_end_seq_len(&v, k2, &ing);
    let k4 = trim_end_seq_len(&v, k3, &ed);
    let k5 = trim_end_char_len(&v, k4, 'e');
    assert(v@.take(n as int) =~= v@);
    let k = if k5 < 5 {
        k5
    } else {
        5
    };
    assert(v@.take(k5 as int).take(k as int) =~= v@.take(k as int));
    substring(w, 0, k)
}

/// The prefixes that are stripped from a package name before it is tokenized.
pub open spec fn strip_rn_prefix(name: Seq<char>) -> Seq<char> {
    if has_prefix(name, "@react-native-community/"@) {
        name.subrange("@react-native-community/"@.len() as int, name.len() as int)
    } else if has_prefix(name, "@react-native-async-storage/"@) {
        name.subrange("@react-native-async-storage/"@.len() as int, name.len() as int)
    } else if has_prefix(name, "@react-native/"@) {
        name.subrange("@react-native/"@.len() as int, name.len() as int)
    } else if has_prefix(name, "react-native-"@) {
        name.subrange("react-native-"@.len() as int, name.len() as int)
    } else if has_prefix(name, "expo-"@) {
        name.subrange("expo-"@.len() as int, name.len() as int)
    } else {
        name
    }
}

fn strip_prefix_if(s: &str, v: &Vec<char>, p: &str) -> (r: Option<String>)
    requires
        v@ == s@,
    ensures
        match r {
            Some(t) => has_prefix(s@, p@) && t@ == s@.subrange(p@.len() as int, s@.len() as int),
            None => !has_prefix(s@, p@),
        },
{
    let pv = chars_of(p);
    if chars_start_with(v, &pv) {
        Some(substring(s, pv.len(), v.len()))
    } else {
        None
    }
}

fn strip_rn_prefix_exec(name: &str) -> (r: String)
    ensures
        r@ == strip_rn_prefix(name@),
{
    let v = chars_of(name);
    if let Some(t) = strip_prefix_if(name, &v, "@react-native-community/") {
        return t;
    }
    if let Some(t) = strip_prefix_if(name, &v, "@react-native-async-storage/") {
        return t;
    }
    if let Some(t) = strip_prefix_if(name, &v, "@react-native/") {
        return t;
    }
    if let Some(t) = strip_prefix_if(name, &v, "react-native-") {
        return t;
    }
    if let Some(t) = strip_prefix_if(name, &v, "expo-") {
        return t;
    }
    substring(name, 0, v.len())
}

/// The distinct words longer than two bytes that are not stopwords.
pub open spec fn name_token_set(ws: Seq<Seq<char>>) -> Seq<Seq<char>>
    decreases ws.len(),
{
    if ws.len() == 0 {
        Seq::empty()
    } else {
        let prev = name_token_set(ws.drop_last());
        let w = ws.last();
        if byte_len(w) > 2 && !topic_stopwords().contains(w) && !prev.contains(w) {
            prev.push(w)
        } else {
            prev
        }
    }
}

/// The tokens of a package's lowercased name, after the React Native and Expo prefixes.
pub open spec fn spec_name_tokens(lib: &Library) -> Seq<Seq<char>> {
    name_token_set(word_pieces(strip_rn_prefix(lowercase(lib.spec_name()))))
}

pub fn name_tokens(lib: &Library) -> (r: Vec<String>)
    ensures
        views(r@) == spec_name_tokens(lib),
{
    let lower = to_lowercase(lib.name());
    let stripped = strip_rn_prefix_exec(lower.as_str());
    let pieces = split_words(stripped.as_str());
    let ghost ws = views(pieces@);
    let n = pieces.len();
    let mut out: Vec<String> = Vec::new();
    let mut i: usize = 0;
    assert(ws.take(0) =~= Seq::<Seq<char>>::empty());
    assert(views(out@) =~= Seq::<Seq<char>>::empty());
    while i < n
        invariant
            n == pieces@.len(),
            ws == views(pieces@),
            i <= n,
            views(out@) == name_token_set(ws.take(i as int)),
        decreases n - i,
    {
        let w = pieces[i].as_str();
        let keep = str_byte_len(w) > 2 && !is_topic_stopword(w);
        proof {
            assert(ws.take(i + 1).drop_last() =~= ws.take(i as int));
            assert(ws.take(i + 1).last() == w@);
        }
        if keep {
            push_new(&mut out, pieces[i].clone());
        }
        i = i + 1;
    }
    assert(ws.take(n as int) =~= ws);
    out
}

/// The stems of the common description words.
pub open spec fn common_stems() -> Seq<Seq<char>> {
    common_words().map_values(|w: Seq<char>| spec_stem_5(w))
}

/// The distinct description keywords: words of at least four bytes that are not
/// stopwords, stemmed, kept when the stem has at least four bytes and is not
/// the stem of a common word.
pub open spec fn description_token_set(ws: Seq<Seq<char>>) -> Seq<Seq<char>>
    decreases ws.len(),
{
    if ws.len() == 0 {
        Seq::empty()
    } else {
        let prev = description_token_set(ws.drop_last());
        let w = ws.last();
        let st = spec_stem_5(w);
        if byte_len(w) >= 4 && !topic_stopwords().contains(w) && byte_len(st) >= 4
            && !common_stems().contains(st) && !prev.contains(st) {
            prev.push(st)
        } else {
            prev
        }
    }
}

/// The keywords of a package's lowercased description.
pub open spec fn spec_description_tokens(lib: &Library) -> Seq<Seq<char>> {
    description_token_set(word_pieces(lowercase(lib.spec_description())))
}

fn common_stem_list() -> (r: Vec<String>)
    ensures
        views(r@) == common_stems(),
{
    let words = common_word_list();
    let n = words.len();
    let mut out: Vec<String> = Vec::new();
    let mut i: usize = 0;
    while i < n
        invariant
            n == words@.len(),
            str_views(words@) == common_words(),
            i <= n,
            views(out@) == common_stems().take(i as int),
        decreases n - i,
    {
        let st = stem_5(words[i]);
        let ghost before = out@;
        out.push(st);
        proof {
            assert(common_words()[i as int] == words@[i as int]@);
            assert(views(out@) =~= views(before).push(st@));
            assert(common_stems().take(i + 1) =~= common_stems().take(i as int).push(st@));
        }
        i = i + 1;
    }
    assert(common_stems().take(n as int) =~= common_stems());
    out
}

pub fn description_tokens(lib: &Library) -> (r: Vec<String>)
    ensures
        views(r@) == spec_description_tokens(lib),
{
    let common = common_stem_list();
    let lower = to_lowercase(lib.description());
    let pieces = split_words(lower.as_str());
    let ghost ws = views(pieces@);
    let n = pieces.len();
    let mut out: Vec<String> = Vec::new();
    let mut i: usize = 0;
    assert(ws.take(0) =~= Seq::<Seq<char>>::empty());
    assert(views(out@) =~= Seq::<Seq<char>>::empty());
    while i < n
        invariant
            n == pieces@.len(),
            ws == views(pieces@),
            views(common@) == common_stems(),
            i <= n,
            views(out@) == description_token_set(ws.take(i as int)),
        decreases n - i,
    {
        let w = pieces[i].as_str();
        proof {
            assert(ws.take(i + 1).drop_last() =~= ws.take(i as int));
            assert(ws.take(i + 1).last() == w@);
        }
        if str_byte_len(w) >= 4 && !is_topic_stopword(w) {
            let st = stem_5(w);
            if str_byte_len(st.as_str()) >= 4 && !strings_contain(&common, st.as_str()) {
                push_new(&mut out, st);
            }
        }
        i = i + 1;
    }
    assert(ws.take(n as int) =~= ws);
    out
}

/// How many words of `a` occur in `b`.
pub open spec fn overlap(a: Seq<Seq<char>>, b: Seq<Seq<char>>) -> nat
    decreases a.len(),
{
    if a.len() == 0 {
        0
    } else {
        overlap(a.drop_last(), b) + if b.contains(a.last()) {
            1nat
        } else {
            0nat
        }
    }
}

pub proof fn lemma_overlap_bound(a: Seq<Seq<char>>, b: Seq<Seq<char>>)
    ensures
        overlap(a, b) <= a.len(),
        overlap(a, b) > 0 ==> b.len() > 0,
    decreases a.len(),
{
    if a.len() > 0 {
        lemma_overlap_bound(a.drop_last(), b);
        if b.contains(a.last()) {
            assert(b.len() > 0);
        }
    }
}

/// The number of words of `a` that occur in `b`.
pub fn overlap_count(a: &Vec<String>, b: &Vec<String>) -> (r: usize)
    ensures
        r == overlap(views(a@), views(b@)),
{
    let n = a.len();
    let mut c: usize = 0;
    let mut i: usize = 0;
    assert(views(a@).take(0) =~= Seq::<Seq<char>>::empty());
    while i < n
        invariant
            n == a@.len(),
            i <= n,
            c == overlap(views(a@).take(i as int), views(b@)),
            c <= i,
        decreases n - i,
    {
        proof {
            assert(views(a@).take(i + 1).drop_last() =~= views(a@).take(i as int));
            assert(views(a@).take(i + 1).last() == a@[i as int]@);
        }
        if strings_contain(b, a[i].as_str()) {
            c = c + 1;
        }
        i = i + 1;
    }
    assert(views(a@).take(n as int) =~= views(a@));
    c
}

} // verus!
