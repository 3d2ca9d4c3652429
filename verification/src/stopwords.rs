//! Word lists that the similarity measures leave out.
use vstd::prelude::*;
use crate::text::str_eq;

verus! {

/// Topic and name words too generic to say what a React Native package does.
pub open spec fn topic_stopwords() -> Seq<Seq<char>> {
    seq![
        "react"@,
        "react-native"@,
        "reactnative"@,
        "react-native-component"@,
        "react-native-library"@,
        "native"@,
        "ios"@,
        "android"@,
        "web"@,
        "expo"@,
        "javascript"@,
        "typescript"@,
        "js"@,
        "ts"@,
        "mobile"@,
        "app"@,
        "library"@,
        "component"@,
        "components"@,
        "module"@,
        "package"@,
        "plugin"@,
        "sdk"@,
        "npm"@,
        "cross-platform"@,
        "hacktoberfest"@,
    ]
}

/// Everyday words of package descriptions, left out of description keywords.
pub open spec fn common_words() -> Seq<Seq<char>> {
    seq![
        "with"@,
        "this"@,
        "that"@,
        "from"@,
        "your"@,
        "into"@,
        "the"@,
        "and"@,
        "for"@,
        "you"@,
        "are"@,
        "can"@,
        "use"@,
        "has"@,
        "have"@,
        "more"@,
        "most"@,
        "some"@,
        "over"@,
        "build"@,
        "built"@,
        "make"@,
        "made"@,
        "work"@,
        "works"@,
        "easy"@,
        "simple"@,
        "using"@,
        "providing"@,
        "provide"@,
        "support"@,
        "supports"@,
        "package"@,
        "lightweight"@,
        "powerful"@,
        "fully"@,
        "fast"@,
        "small"@,
        "big"@,
        "new"@,
        "old"@,
    ]
}

/// Views of a vector of string slices.
pub open spec fn str_views(v: Seq<&str>) -> Seq<Seq<char>> {
    v.map_values(|s: &str| s@)
}

fn topic_stopword_list() -> (v: Vec<&'static str>)
    ensures
        str_views(v@) == topic_stopwords(),
{
    let v = vec![
        "react",
        "react-native",
        "reactnative",
        "react-native-component",
        "react-native-library",
        "native",
        "ios",
        "android",
        "web",
        "expo",
        "javascript",
        "typescript",
        "js",
        "ts",
        "mobile",
        "app",
        "library",
        "component",
        "components",
        "module",
        "package",
        "plugin",
        "sdk",
        "npm",
        "cross-platform",
        "hacktoberfest",
    ];
    assert(str_views(v@) =~= topic_stopwords());
    v
}

/// The common description words.
pub fn common_word_list() -> (v: Vec<&'static str>)
    ensures
        str_views(v@) == common_words(),
{
    let v = vec![
        "with",
        "this",
        "that",
        "from",
        "your",
        "into",
        "the",
        "and",
        "for",
        "you",
        "are",
        "can",
        "use",
        "has",
        "have",
        "more",
        "most",
        "some",
        "over",
        "build",
        "built",
        "make",
        "made",
        "work",
        "works",
        "easy",
        "simple",
        "using",
        "providing",
        "provide",
        "support",
        "supports",
        "package",
        "lightweight",
        "powerful",
        "fully",
        "fast",
        "small",
        "big",
        "new",
        "old",
    ];
    assert(str_views(v@) =~= common_words());
    v
}

/// Membership of a string slice in a list of string slices.
pub fn str_list_contains(list: &Vec<&str>, w: &str) -> (r: bool)
    ensures
        r == str_views(list@).contains(w@),
{
    let n = list.len();
    let mut i: usize = 0;
    while i < n
        invariant
            n == list@.len(),
            i <= n,
            forall|j: int| 0 <= j < i ==> list@[j]@ != w@,
        decreases n - i,
    {
        if str_eq(list[i], w) {
            assert(str_views(list@)[i as int] == w@);
            return true;
        }
        i = i + 1;
    }
    assert forall|j: int| 0 <= j < str_views(list@).len() implies str_views(list@)[j] != w@ by {
        assert(str_views(list@)[j] == list@[j]@);
    }
    false
}

/// Whether a word is a topic stopword.
pub fn is_topic_stopword(w: &str) -> (r: bool)
    ensures
        r == topic_stopwords().contains(w@),
{
    let list = topic_stopword_list();
    str_list_contains(&list, w)
}

} // verus!
