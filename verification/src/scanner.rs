//! Import scanning of JavaScript/TypeScript sources.
//!
//! An import is `from` followed by whitespace, `require` with optional
//! whitespace around an opening parenthesis, or `import` followed by
//! whitespace, and then a quoted specifier: a quote (`'` or `"`), a first
//! character that is neither a quote nor `.` nor `/`, and every following
//! character up to the next quote. Imports are found line by line, left to
//! right, without overlapping; whitespace is the Unicode `White_Space` set.
use vstd::prelude::*;
use crate::stopwords::{str_list_contains, str_views};
use crate::text::{byte_len, chars_eq, chars_of, split_by, str_byte_len, str_eq, substring};

verus! {

// ---------------------------------------------------------------------------
// Which files are scanned
// ---------------------------------------------------------------------------

/// Directories that are never descended into.
pub open spec fn ignored_dir_names() -> Seq<Seq<char>> {
    seq![
        "node_modules"@,
        ".git"@,
        ".hg"@,
        ".svn"@,
        "dist"@,
        "build"@,
        "Pods"@,
        ".gradle"@,
        ".expo"@,
        ".next"@,
        ".turbo"@,
        "coverage"@,
        "target"@,
        ".cache"@,
        ".idea"@,
        ".vscode"@,
    ]
}

/// Extensions of the scanned source files.
pub open spec fn source_extensions() -> Seq<Seq<char>> {
    seq!["ts"@, "tsx"@, "js"@, "jsx"@, "mjs"@, "cjs"@]
}

/// A hidden directory below the root: its name starts with `.` and is not `.` or `..`.
pub open spec fn spec_is_hidden(name: Option<Seq<char>>, depth: usize, is_dir: bool) -> bool {
    let hidden_name = match name {
        Some(n) => n.len() > 0 && n[0] == '.' && n != "."@ && n != ".."@,
        None => false,
    };
    hidden_name && depth > 0 && is_dir
}

/// The view of an optional string slice.
pub open spec fn opt_str_view(o: Option<&str>) -> Option<Seq<char>> {
    match o {
        Some(s) => Some(s@),
        None => None,
    }
}

/// Whether a walk entry is a hidden directory (its name, when it is valid UTF-8).
pub fn is_hidden(name: Option<&str>, depth: usize, is_dir: bool) -> (r: bool)
    ensures
        r == spec_is_hidden(opt_str_view(name), depth, is_dir),
{
    let hidden_name = match name {
        Some(n) => {
            let v = chars_of(n);
            v.len() > 0 && v[0] == '.' && !str_eq(n, ".") && !str_eq(n, "..")
        },
        None => false,
    };
    hidden_name && depth > 0 && is_dir
}

/// A directory that is not descended into: an ignored name or a hidden directory.
pub open spec fn spec_is_ignored_dir(name: Option<Seq<char>>, depth: usize, is_dir: bool) -> bool {
    let listed_or_hidden = match name {
        Some(n) => ignored_dir_names().contains(n) || spec_is_hidden(name, depth, is_dir),
        None => false,
    };
    is_dir && listed_or_hidden
}

/// Whether a walk entry is a directory that is not descended into.
pub fn is_ignored_dir(name: Option<&str>, depth: usize, is_dir: bool) -> (r: bool)
    ensures
        r == spec_is_ignored_dir(opt_str_view(name), depth, is_dir),
{
    if !is_dir {
        return false;
    }
    match name {
        Some(n) => {
            let list = vec![
                "node_modules",
                ".git",
                ".hg",
                ".svn",
                "dist",
                "build",
                "Pods",
                ".gradle",
                ".expo",
                ".next",
                ".turbo",
                "coverage",
                "target",
                ".cache",
                ".idea",
                ".vscode",
            ];
            assert(str_views(list@) =~= ignored_dir_names());
            str_list_contains(&list, n) || is_hidden(name, depth, is_dir)
        },
        None => false,
    }
}

/// Whether a file with this extension (when it has one that is valid UTF-8) is scanned.
pub fn is_source_extension(ext: Option<&str>) -> (r: bool)
    ensures
        r == match opt_str_view(ext) {
            Some(e) => source_extensions().contains(e),
            None => false,
        },
{
    match ext {
        Some(e) => {
            let list = vec!["ts", "tsx", "js", "jsx", "mjs", "cjs"];
            assert(str_views(list@) =~= source_extensions());
            str_list_contains(&list, e)
        },
        None => false,
    }
}

/// The scanned source files are exactly those with extension `ts`, `tsx`,
/// `js`, `jsx`, `mjs` or `cjs`.
pub proof fn law_source_extensions(e: Seq<char>)
    ensures
        source_extensions().contains(e) <==> (e == "ts"@ || e == "tsx"@ || e == "js"@ || e == "jsx"@
            || e == "mjs"@ || e == "cjs"@),
{
    let s = source_extensions();
    if e == "ts"@ {
        assert(s[0] == e);
    } else if e == "tsx"@ {
        assert(s[1] == e);
    } else if e == "js"@ {
        assert(s[2] == e);
    } else if e == "jsx"@ {
        assert(s[3] == e);
    } else if e == "mjs"@ {
        assert(s[4] == e);
    } else if e == "cjs"@ {
        assert(s[5] == e);
    }
}

// ---------------------------------------------------------------------------
// Package names of import specifiers
// ---------------------------------------------------------------------------

/// The first position from `k` on holding `c`.
pub open spec fn first_index_of(s: Seq<char>, c: char, k: int) -> Option<int>
    decreases s.len() - k,
{
    if k < 0 || k >= s.len() {
        None
    } else if s[k] == c {
        Some(k)
    } else {
        first_index_of(s, c, k + 1)
    }
}

proof fn lemma_first_index_of(s: Seq<char>, c: char, k: int)
    requires
        k >= 0,
    ensures
        match first_index_of(s, c, k) {
            Some(i) => k <= i < s.len() && s[i] == c && forall|j: int| k <= j < i ==> s[j] != c,
            None => forall|j: int| k <= j < s.len() ==> s[j] != c,
        },
    decreases s.len() - k,
{
    if k < s.len() && s[k] != c {
        lemma_first_index_of(s, c, k + 1);
    }
}

fn index_of(v: &Vec<char>, c: char, k: usize) -> (r: Option<usize>)
    requires
        k <= v@.len(),
    ensures
        match r {
            Some(i) => first_index_of(v@, c, k as int) == Some(i as int),
            None => first_index_of(v@, c, k as int) is None,
        },
{
    let n = v.len();
    let mut i = k;
    while i < n
        invariant
            n == v@.len(),
            k <= i <= n,
            first_index_of(v@, c, k as int) == first_index_of(v@, c, i as int),
        decreases n - i,
    {
        if v[i] == c {
            return Some(i);
        }
        i = i + 1;
    }
    None
}

/// The package an import specifier names: nothing for an empty, relative or
/// absolute specifier; `@scope/name` for a scoped one (nothing when the scope
/// is only `@` or the name is missing or empty); else the first path segment.
pub open spec fn spec_extract_package_name(s: Seq<char>) -> Option<Seq<char>> {
    if s.len() == 0 || s[0] == '.' || s[0] == '/' {
        None
    } else if s[0] == '@' {
        match first_index_of(s, '/', 0) {
            None => None,
            Some(i) => {
                let scope = s.subrange(0, i);
                let end = match first_index_of(s, '/', i + 1) {
                    Some(j) => j,
                    None => s.len() as int,
                };
                let name = s.subrange(i + 1, end);
                if byte_len(scope) < 2 || name.len() == 0 {
                    None
                } else {
                    Some(scope + "/"@ + name)
                }
            },
        }
    } else {
        let end = match first_index_of(s, '/', 0) {
            Some(j) => j,
            None => s.len() as int,
        };
        Some(s.subrange(0, end))
    }
}

/// The package that an import specifier names.
pub fn extract_package_name(import: &str) -> (r: Option<String>)
    ensures
        match r {
            Some(p) => spec_extract_package_name(import@) == Some(p@),
            None => spec_extract_package_name(import@) is None,
        },
{
    let v = chars_of(import);
    let n = v.len();
    if n == 0 || v[0] == '.' || v[0] == '/' {
        return None;
    }
    if v[0] == '@' {
        match index_of(&v, '/', 0) {
            None => None,
            Some(i) => {
                proof {
                    lemma_first_index_of(v@, '/', 0);
                }
                let end = match index_of(&v, '/', i + 1) {
                    Some(j) => j,
                    None => n,
                };
                proof {
                    lemma_first_index_of(v@, '/', i + 1);
                }
                let scope = substring(import, 0, i);
                let name = substring(import, i + 1, end);
                if str_byte_len(scope.as_str()) < 2 || name.as_str().unicode_len() == 0 {
                    None
                } else {
                    let joined = scope.concat("/").concat(name.as_str());
                    Some(joined)
                }
            },
        }
    } else {
        let end = match index_of(&v, '/', 0) {
            Some(j) => j,
            None => n,
        };
        proof {
            lemma_first_index_of(v@, '/', 0);
        }
        Some(substring(import, 0, end))
    }
}

/// The package an import names is a leading part of the import specifier.
pub proof fn law_package_name_is_prefix(s: Seq<char>)
    ensures
        spec_extract_package_name(s) matches Some(p) ==> p.len() <= s.len() && s.subrange(
            0,
            p.len() as int,
        ) == p,
{
    lemma_first_index_of(s, '/', 0);
    if s.len() > 0 && s[0] == '@' {
        match first_index_of(s, '/', 0) {
            Some(i) => {
                lemma_first_index_of(s, '/', i + 1);
                let end = match first_index_of(s, '/', i + 1) {
                    Some(j) => j,
                    None => s.len() as int,
                };
                reveal_strlit("/");
                let p = s.subrange(0, i) + "/"@ + s.subrange(i + 1, end);
                assert(p =~= s.subrange(0, end));
            },
            None => {},
        }
    }
}

/// The package an import names is its own package name: reading it again gives
/// it back. A scoped name holds exactly one `/`; any other name is non-empty and
/// holds none.
pub proof fn law_package_name_is_package(s: Seq<char>)
    ensures
        spec_extract_package_name(s) matches Some(p) ==> {
            &&& spec_extract_package_name(p) == Some(p)
            &&& s[0] == '@' ==> exists|i: int|
                0 <= i < p.len() && p[i] == '/' && forall|j: int|
                    0 <= j < p.len() && j != i ==> #[trigger] p[j] != '/'
            &&& s[0] != '@' ==> p.len() > 0 && forall|j: int| 0 <= j < p.len() ==> #[trigger] p[j] != '/'
        },
{
    law_package_name_is_prefix(s);
    lemma_first_index_of(s, '/', 0);
    if let Some(p) = spec_extract_package_name(s) {
        reveal_strlit("/");
        assert(p.len() <= s.len() && s.subrange(0, p.len() as int) == p);
        assert forall|j: int| 0 <= j < p.len() implies p[j] == s[j] by {
            assert(s.subrange(0, p.len() as int)[j] == s[j]);
        }
        lemma_first_index_of(p, '/', 0);
        if s[0] == '@' {
            let i = first_index_of(s, '/', 0)->0;
            lemma_first_index_of(s, '/', i + 1);
            let end = match first_index_of(s, '/', i + 1) {
                Some(j) => j,
                None => s.len() as int,
            };
            let q = s.subrange(0, i) + "/"@ + s.subrange(i + 1, end);
            assert(q =~= s.subrange(0, end));
            assert(p.len() == end);
            assert(p[i] == '/');
            assert(first_index_of(p, '/', 0) == Some(i));
            lemma_first_index_of(p, '/', i + 1);
            assert(first_index_of(p, '/', i + 1) is None);
            assert(p.subrange(0, i) =~= s.subrange(0, i));
            assert(p.subrange(i + 1, end) =~= s.subrange(i + 1, end));
            assert forall|j: int| 0 <= j < p.len() && j != i implies #[trigger] p[j] != '/' by {
                if j > i {
                    assert(p[j] == s[j]);
                }
            }
        } else {
            let end = match first_index_of(s, '/', 0) {
                Some(j) => j,
                None => s.len() as int,
            };
            assert(p =~= s.subrange(0, end));
            assert(end > 0);
            assert forall|j: int| 0 <= j < p.len() implies #[trigger] p[j] != '/' by {
                assert(p[j] == s[j]);
            }
            assert(first_index_of(p, '/', 0) is None);
            assert(p.subrange(0, p.len() as int) =~= p);
        }
    }
}

// ---------------------------------------------------------------------------
// The import pattern
// ---------------------------------------------------------------------------

/// Unicode `White_Space`.
pub open spec fn is_white_space(c: char) -> bool {
    let u = c as u32;
    (9 <= u && u <= 13) || u == 32 || u == 0x85 || u == 0xA0 || u == 0x1680 || (0x2000 <= u && u
        <= 0x200A) || u == 0x2028 || u == 0x2029 || u == 0x202F || u == 0x205F || u == 0x3000
}

fn white_space(c: char) -> (r: bool)
    ensures
        r == is_white_space(c),
{
    let u = c as u32;
    (9 <= u && u <= 13) || u == 32 || u == 0x85 || u == 0xA0 || u == 0x1680 || (0x2000 <= u && u
        <= 0x200A) || u == 0x2028 || u == 0x2029 || u == 0x202F || u == 0x205F || u == 0x3000
}

pub open spec fn is_quote(c: char) -> bool {
    c == '\'' || c == '"'
}

/// The end of the run of whitespace starting at `k`.
pub open spec fn ws_end(l: Seq<char>, k: int) -> int
    decreases l.len() - k,
{
    if 0 <= k < l.len() && is_white_space(l[k]) {
        ws_end(l, k + 1)
    } else {
        k
    }
}

proof fn lemma_ws_end(l: Seq<char>, k: int)
    requires
        0 <= k <= l.len(),
    ensures
        k <= ws_end(l, k) <= l.len(),
    decreases l.len() - k,
{
    if k < l.len() && is_white_space(l[k]) {
        lemma_ws_end(l, k + 1);
    }
}

/// The first quote at or after `k`.
pub open spec fn quote_at_or_after(l: Seq<char>, k: int) -> Option<int>
    decreases l.len() - k,
{
    if k < 0 || k >= l.len() {
        None
    } else if is_quote(l[k]) {
        Some(k)
    } else {
        quote_at_or_after(l, k + 1)
    }
}

proof fn lemma_quote_at_or_after(l: Seq<char>, k: int)
    requires
        k >= 0,
    ensures
        quote_at_or_after(l, k) matches Some(j) ==> k <= j < l.len(),
    decreases l.len() - k,
{
    if k < l.len() && !is_quote(l[k]) {
        lemma_quote_at_or_after(l, k + 1);
    }
}

/// A quoted specifier opening at `q`: its end (after the closing quote) and text.
pub open spec fn quoted_at(l: Seq<char>, q: int) -> Option<(int, Seq<char>)> {
    if 0 <= q && q + 1 < l.len() && is_quote(l[q]) && !is_quote(l[q + 1]) && l[q + 1] != '.' && l[q
        + 1] != '/' {
        match quote_at_or_after(l, q + 2) {
            Some(j) => Some((j + 1, l.subrange(q + 1, j))),
            None => None,
        }
    } else {
        None
    }
}

/// `kw` occurs at position `p` of `l`.
pub open spec fn keyword_at(l: Seq<char>, p: int, kw: Seq<char>) -> bool {
    0 <= p && p + kw.len() <= l.len() && l.subrange(p, p + kw.len()) == kw
}

/// The import that starts at position `p`, if one does: its end and specifier.
pub open spec fn import_at(l: Seq<char>, p: int) -> Option<(int, Seq<char>)> {
    if keyword_at(l, p, "from"@) {
        let k = p + "from"@.len();
        let w = ws_end(l, k);
        if w > k {
            quoted_at(l, w)
        } else {
            None
        }
    } else if keyword_at(l, p, "require"@) {
        let w = ws_end(l, p + "require"@.len());
        if 0 <= w < l.len() && l[w] == '(' {
            quoted_at(l, ws_end(l, w + 1))
        } else {
            None
        }
    } else if keyword_at(l, p, "import"@) {
        let k = p + "import"@.len();
        let w = ws_end(l, k);
        if w > k {
            quoted_at(l, w)
        } else {
            None
        }
    } else {
        None
    }
}

proof fn lemma_import_at_end(l: Seq<char>, p: int)
    requires
        0 <= p < l.len(),
    ensures
        import_at(l, p) matches Some((e, c)) ==> p < e <= l.len(),
{
    if keyword_at(l, p, "from"@) {
        let k = p + "from"@.len();
        lemma_ws_end(l, k);
        let w = ws_end(l, k);
        if w > k && w + 2 <= l.len() {
            lemma_quote_at_or_after(l, w + 2);
        }
    } else if keyword_at(l, p, "require"@) {
        let k = p + "require"@.len();
        lemma_ws_end(l, k);
        let w = ws_end(l, k);
        if 0 <= w < l.len() && l[w] == '(' {
            lemma_ws_end(l, w + 1);
            let w2 = ws_end(l, w + 1);
            if w2 + 2 <= l.len() {
                lemma_quote_at_or_after(l, w2 + 2);
            }
        }
    } else if keyword_at(l, p, "import"@) {
        let k = p + "import"@.len();
        lemma_ws_end(l, k);
        let w = ws_end(l, k);
        if w > k && w + 2 <= l.len() {
            lemma_quote_at_or_after(l, w + 2);
        }
    }
}

/// The specifiers of the imports of `l` found from position `pos` on, each
/// search resuming after the previous import.
pub open spec fn imports_from(l: Seq<char>, pos: int) -> Seq<Seq<char>>
    decreases l.len() - pos,
{
    if pos < 0 || pos >= l.len() {
        Seq::empty()
    } else {
        match import_at(l, pos) {
            Some((end, spec)) => {
                if pos < end <= l.len() {
                    seq![spec] + imports_from(l, end)
                } else {
                    Seq::empty()
                }
            },
            None => imports_from(l, pos + 1),
        }
    }
}

fn ws_end_exec(l: &Vec<char>, k: usize) -> (r: usize)
    requires
        k <= l@.len(),
    ensures
        r == ws_end(l@, k as int),
        k <= r <= l@.len(),
{
    let n = l.len();
    let mut i = k;
    while i < n && white_space(l[i])
        invariant
            n == l@.len(),
            k <= i <= n,
            ws_end(l@, k as int) == ws_end(l@, i as int),
        decreases n - i,
    {
        i = i + 1;
    }
    i
}

fn quoted_at_exec(l: &Vec<char>, q: usize) -> (r: Option<(usize, usize, usize)>)
    requires
        q <= l@.len(),
    ensures
        match r {
            Some((e, a, b)) => quoted_at(l@, q as int) == Some(
                (e as int, l@.subrange(a as int, b as int)),
            ) && a <= b <= l@.len() && e <= l@.len(),
            None => quoted_at(l@, q as int) is None,
        },
{
    let n = l.len();
    if q < n && n - q > 1 && (l[q] == '\'' || l[q] == '"') && !(l[q + 1] == '\'' || l[q + 1] == '"') && l[q
        + 1] != '.' && l[q + 1] != '/' {
        let mut j = q + 2;
        while j < n && !(l[j] == '\'' || l[j] == '"')
            invariant
                n == l@.len(),
                q + 2 <= j <= n,
                quote_at_or_after(l@, q + 2) == quote_at_or_after(l@, j as int),
            decreases n - j,
        {
            j = j + 1;
        }
        if j < n {
            Some((j + 1, q + 1, j))
        } else {
            None
        }
    } else {
        None
    }
}

fn keyword_at_exec(l: &Vec<char>, p: usize, kw: &Vec<char>) -> (r: bool)
    requires
        p <= l@.len(),
    ensures
        r == keyword_at(l@, p as int, kw@),
{
    let n = l.len();
    let m = kw.len();
    if m > n - p {
        return false;
    }
    let mut k: usize = 0;
    while k < m
        invariant
            n == l@.len(),
            m == kw@.len(),
            p + m <= n,
            k <= m,
            forall|j: int| 0 <= j < k ==> l@[p + j] == kw@[j],
        decreases m - k,
    {
        if l[p + k] != kw[k] {
            assert(l@.subrange(p as int, p + m)[k as int] != kw@[k as int]);
            return false;
        }
        k = k + 1;
    }
    assert(l@.subrange(p as int, p + m) =~= kw@);
    true
}

fn import_at_exec(l: &Vec<char>, p: usize, from_kw: &Vec<char>, require_kw: &Vec<char>, import_kw: &Vec<char>) -> (r: Option<(usize, usize, usize)>)
    requires
        p < l@.len(),
        from_kw@ == "from"@,
        require_kw@ == "require"@,
        import_kw@ == "import"@,
    ensures
        match r {
            Some((e, a, b)) => import_at(l@, p as int) == Some(
                (e as int, l@.subrange(a as int, b as int)),
            ) && a <= b <= l@.len() && e <= l@.len(),
            None => import_at(l@, p as int) is None,
        },
{
    let _n = l.len();
    if keyword_at_exec(l, p, from_kw) {
        let k = p + from_kw.len();
        let w = ws_end_exec(l, k);
        if w > k {
            quoted_at_exec(l, w)
        } else {
            None
        }
    } else if keyword_at_exec(l, p, require_kw) {
        let w = ws_end_exec(l, p + require_kw.len());
        if w < l.len() && l[w] == '(' {
            let w2 = ws_end_exec(l, w + 1);
            quoted_at_exec(l, w2)
        } else {
            None
        }
    } else if keyword_at_exec(l, p, import_kw) {
        let k = p + import_kw.len();
        let w = ws_end_exec(l, k);
        if w > k {
            quoted_at_exec(l, w)
        } else {
            None
        }
    } else {
        None
    }
}

/// The import specifiers of one line, as character ranges of the line.
fn line_imports(l: &Vec<char>) -> (r: Vec<(usize, usize)>)
    ensures
        r@.map_values(|ab: (usize, usize)| l@.subrange(ab.0 as int, ab.1 as int)) == imports_from(l@, 0),
        forall|k: int| 0 <= k < r@.len() ==> #[trigger] r@[k].0 <= r@[k].1 <= l@.len(),
{
    let from_kw = chars_of("from");
    let require_kw = chars_of("require");
    let import_kw = chars_of("import");
    let n = l.len();
    let mut out: Vec<(usize, usize)> = Vec::new();
    let mut pos: usize = 0;
    while pos < n
        invariant
            n == l@.len(),
            pos <= n,
            from_kw@ == "from"@,
            require_kw@ == "require"@,
            import_kw@ == "import"@,
            forall|k: int| 0 <= k < out@.len() ==> #[trigger] out@[k].0 <= out@[k].1 <= l@.len(),
            out@.map_values(|ab: (usize, usize)| l@.subrange(ab.0 as int, ab.1 as int)) + imports_from(l@, pos as int)
                == imports_from(l@, 0),
        decreases n - pos,
    {
        proof {
            lemma_import_at_end(l@, pos as int);
        }
        match import_at_exec(l, pos, &from_kw, &require_kw, &import_kw) {
            Some((e, a, b)) => {
                let ghost before = out@;
                out.push((a, b));
                assert(out@.map_values(|ab: (usize, usize)| l@.subrange(ab.0 as int, ab.1 as int))
                    =~= before.map_values(|ab: (usize, usize)| l@.subrange(ab.0 as int, ab.1 as int)).push(
                    l@.subrange(a as int, b as int),
                ));
                assert(imports_from(l@, pos as int) == seq![l@.subrange(a as int, b as int)]
                    + imports_from(l@, e as int));
                assert(out@.map_values(|ab: (usize, usize)| l@.subrange(ab.0 as int, ab.1 as int))
                    + imports_from(l@, e as int) =~= before.map_values(
                    |ab: (usize, usize)| l@.subrange(ab.0 as int, ab.1 as int),
                ) + imports_from(l@, pos as int));
                pos = e;
            },
            None => {
                pos = pos + 1;
            },
        }
    }
    assert(imports_from(l@, pos as int) =~= Seq::<Seq<char>>::empty());
    assert(out@.map_values(|ab: (usize, usize)| l@.subrange(ab.0 as int, ab.1 as int)) + Seq::<
        Seq<char>,
    >::empty() =~= out@.map_values(|ab: (usize, usize)| l@.subrange(ab.0 as int, ab.1 as int)));
    out
}


/// The import specifiers of one line, left to right.
pub fn import_specifiers(line: &str) -> (r: Vec<String>)
    ensures
        crate::text::views(r@) == imports_from(line@, 0),
{
    let v = chars_of(line);
    let caps = line_imports(&v);
    let ghost specs = imports_from(v@, 0);
    let n = caps.len();
    let mut out: Vec<String> = Vec::new();
    let mut j: usize = 0;
    while j < n
        invariant
            v@ == line@,
            n == caps@.len(),
            caps@.map_values(|ab: (usize, usize)| v@.subrange(ab.0 as int, ab.1 as int)) == specs,
            forall|k: int| 0 <= k < caps@.len() ==> #[trigger] caps@[k].0 <= caps@[k].1 <= v@.len(),
            j <= n,
            crate::text::views(out@) == specs.take(j as int),
        decreases n - j,
    {
        let (a, b) = caps[j];
        assert(caps@[j as int].0 <= caps@[j as int].1 <= v@.len());
        let t = substring(line, a, b);
        let ghost before = out@;
        out.push(t);
        assert(crate::text::views(out@) =~= crate::text::views(before).push(specs[j as int]));
        j = j + 1;
        assert(specs.take(j as int) =~= specs.take(j - 1).push(specs[j - 1]));
    }
    assert(specs.take(n as int) =~= specs);
    out
}

// ---------------------------------------------------------------------------
// Lines and files
// ---------------------------------------------------------------------------

/// Ranges of `v` as character sequences.
pub open spec fn ranges_view(v: Seq<char>, r: Seq<(usize, usize)>) -> Seq<Seq<char>> {
    r.map_values(|ab: (usize, usize)| v.subrange(ab.0 as int, ab.1 as int))
}

/// The ranges lie within `v`.
pub open spec fn ranges_within(v: Seq<char>, r: Seq<(usize, usize)>) -> bool {
    forall|k: int| 0 <= k < r.len() ==> #[trigger] r[k].0 <= r[k].1 <= v.len()
}

/// The pieces of `s` between newlines.
pub open spec fn newline_pieces(s: Seq<char>) -> Seq<Seq<char>> {
    split_by(s, |c: char| c == '\n')
}

/// A piece with one trailing carriage return removed.
pub open spec fn strip_cr(p: Seq<char>) -> Seq<char> {
    if p.len() > 0 && p.last() == '\r' {
        p.drop_last()
    } else {
        p
    }
}

/// The lines of a text as `str::lines` yields them: split at `\n`, a `\r` just
/// before a `\n` removed, and no empty last line after a final newline.
pub open spec fn source_lines(s: Seq<char>) -> Seq<Seq<char>> {
    let ps = newline_pieces(s);
    let body = ps.drop_last().map_values(|p: Seq<char>| strip_cr(p));
    if ps.last().len() > 0 {
        body.push(ps.last())
    } else {
        body
    }
}

fn newline_ranges(v: &Vec<char>) -> (r: Vec<(usize, usize)>)
    ensures
        ranges_view(v@, r@) == newline_pieces(v@),
        ranges_within(v@, r@),
        r@.len() >= 1,
{
    let n = v.len();
    let mut out: Vec<(usize, usize)> = Vec::new();
    let mut start: usize = 0;
    let mut i: usize = 0;
    assert(v@.take(0) =~= Seq::<char>::empty());
    assert(ranges_view(v@, out@) =~= Seq::<Seq<char>>::empty());
    assert(v@.subrange(0, 0) =~= Seq::<char>::empty());
    while i < n
        invariant
            n == v@.len(),
            start <= i <= n,
            ranges_within(v@, out@),
            newline_pieces(v@.take(i as int)) == ranges_view(v@, out@).push(
                v@.subrange(start as int, i as int),
            ),
        decreases n - i,
    {
        let c = v[i];
        let ghost prev = newline_pieces(v@.take(i as int));
        proof {
            let t = v@.take(i + 1);
            assert(t.drop_last() =~= v@.take(i as int));
            assert(t.last() == c);
            crate::text::lemma_split_by_nonempty(v@.take(i as int), |c: char| c == '\n');
            if c == '\n' {
                assert(newline_pieces(t) == prev.push(Seq::<char>::empty()));
            } else {
                assert(newline_pieces(t) == prev.update(prev.len() - 1, prev.last().push(c)));
            }
        }
        if c == '\n' {
            let ghost before = out@;
            out.push((start, i));
            start = i + 1;
            assert(ranges_view(v@, out@) =~= ranges_view(v@, before).push(
                v@.subrange(out@.last().0 as int, out@.last().1 as int),
            ));
            assert(v@.subrange(start as int, (i + 1) as int) =~= Seq::<char>::empty());
            assert(newline_pieces(v@.take(i + 1)) =~= ranges_view(v@, out@).push(
                v@.subrange(start as int, (i + 1) as int),
            ));
        } else {
            assert(v@.subrange(start as int, i as int).push(c) =~= v@.subrange(
                start as int,
                (i + 1) as int,
            ));
            assert(newline_pieces(v@.take(i + 1)) =~= ranges_view(v@, out@).push(
                v@.subrange(start as int, (i + 1) as int),
            ));
        }
        i = i + 1;
    }
    let ghost before = out@;
    out.push((start, n));
    assert(ranges_view(v@, out@) =~= ranges_view(v@, before).push(v@.subrange(start as int, n as int)));
    assert(v@.take(n as int) =~= v@);
    out
}

fn line_ranges(v: &Vec<char>) -> (r: Vec<(usize, usize)>)
    ensures
        ranges_view(v@, r@) == source_lines(v@),
        ranges_within(v@, r@),
{
    let pieces = newline_ranges(v);
    let ghost ps = newline_pieces(v@);
    let m = pieces.len() - 1;
    let mut out: Vec<(usize, usize)> = Vec::new();
    let mut k: usize = 0;
    while k < m
        invariant
            m + 1 == pieces@.len(),
            ps == ranges_view(v@, pieces@),
            ranges_within(v@, pieces@),
            k <= m,
            ranges_within(v@, out@),
            ranges_view(v@, out@) == ps.take(k as int).map_values(|p: Seq<char>| strip_cr(p)),
        decreases m - k,
    {
        let (a, b) = pieces[k];
        assert(pieces@[k as int].0 <= pieces@[k as int].1 <= v@.len());
        let range = if b > a && v[b - 1] == '\r' {
            (a, b - 1)
        } else {
            (a, b)
        };
        proof {
            assert(ps[k as int] == v@.subrange(a as int, b as int));
            if b > a && v@[b - 1] == '\r' {
                assert(strip_cr(ps[k as int]) =~= v@.subrange(a as int, b - 1));
            }
        }
        let ghost before = out@;
        out.push(range);
        k = k + 1;
        assert(ranges_view(v@, out@) =~= ranges_view(v@, before).push(
            v@.subrange(range.0 as int, range.1 as int),
        ));
        assert(ps.take(k as int).map_values(|p: Seq<char>| strip_cr(p)) =~= ps.take(k - 1).map_values(
            |p: Seq<char>| strip_cr(p),
        ).push(strip_cr(ps[k - 1])));
    }
    assert(ps.take(m as int) =~= ps.drop_last());
    let (a, b) = pieces[m];
    assert(pieces@[m as int].0 <= pieces@[m as int].1 <= v@.len());
    assert(ps.last() == v@.subrange(a as int, b as int));
    if b > a {
        let ghost before = out@;
        out.push((a, b));
        assert(ranges_view(v@, out@) =~= ranges_view(v@, before).push(v@.subrange(a as int, b as int)));
    }
    out
}

/// The packages named by the specifiers that name one.
pub open spec fn packages_of(specs: Seq<Seq<char>>) -> Seq<Seq<char>>
    decreases specs.len(),
{
    if specs.len() == 0 {
        Seq::empty()
    } else {
        let prev = packages_of(specs.drop_last());
        match spec_extract_package_name(specs.last()) {
            Some(p) => prev.push(p),
            None => prev,
        }
    }
}

/// The imported packages of the first `n` lines, each with its line number (from 1).
pub open spec fn lines_imports(ls: Seq<Seq<char>>, n: int) -> Seq<(Seq<char>, int)>
    decreases n,
{
    if n <= 0 {
        Seq::empty()
    } else {
        lines_imports(ls, n - 1) + packages_of(imports_from(ls[n - 1], 0)).map_values(
            |p: Seq<char>| (p, n),
        )
    }
}

/// The imported packages of a source text with their line numbers, in order.
pub open spec fn source_imports(s: Seq<char>) -> Seq<(Seq<char>, int)> {
    let ls = source_lines(s);
    lines_imports(ls, ls.len() as int)
}

/// Views of imports found.
pub open spec fn imports_view(r: Seq<(String, usize)>) -> Seq<(Seq<char>, int)> {
    r.map_values(|p: (String, usize)| (p.0@, p.1 as int))
}

/// The imported packages of a source text, each with the (1-based) line it is imported on.
pub fn source_imports_exec(content: &str) -> (r: Vec<(String, usize)>)
    ensures
        imports_view(r@) == source_imports(content@),
{
    let v = chars_of(content);
    let lines = line_ranges(&v);
    let ghost ls = source_lines(v@);
    let nl = lines.len();
    let mut out: Vec<(String, usize)> = Vec::new();
    let mut i: usize = 0;
    assert(imports_view(out@) =~= Seq::<(Seq<char>, int)>::empty());
    while i < nl
        invariant
            v@ == content@,
            nl == lines@.len(),
            ls == ranges_view(v@, lines@),
            ranges_within(v@, lines@),
            i <= nl,
            imports_view(out@) == lines_imports(ls, i as int),
        decreases nl - i,
    {
        let (a, b) = lines[i];
        assert(lines@[i as int].0 <= lines@[i as int].1 <= v@.len());
        let mut line: Vec<char> = Vec::new();
        let mut k = a;
        while k < b
            invariant
                a <= k <= b <= v@.len(),
                line@ == v@.subrange(a as int, k as int),
            decreases b - k,
        {
            line.push(v[k]);
            k = k + 1;
            assert(line@ =~= v@.subrange(a as int, k as int));
        }
        assert(line@ == ls[i as int]);
        let caps = line_imports(&line);
        let ghost specs = imports_from(line@, 0);
        let ghost base = imports_view(out@);
        let nc = caps.len();
        let mut j: usize = 0;
        assert(specs.take(0) =~= Seq::<Seq<char>>::empty());
        assert(base + packages_of(specs.take(0)).map_values(|p: Seq<char>| (p, (i + 1) as int)) =~= base);
        while j < nc
            invariant
                v@ == content@,
                a <= b <= v@.len(),
                line@ == v@.subrange(a as int, b as int),
                nc == caps@.len(),
                caps@.map_values(|ab: (usize, usize)| line@.subrange(ab.0 as int, ab.1 as int)) == specs,
                forall|k: int| 0 <= k < caps@.len() ==> #[trigger] caps@[k].0 <= caps@[k].1 <= line@.len(),
                j <= nc,
                i < nl,
                imports_view(out@) == base + packages_of(specs.take(j as int)).map_values(
                    |p: Seq<char>| (p, (i + 1) as int),
                ),
            decreases nc - j,
        {
            let (ca, cb) = caps[j];
            assert(caps@[j as int].0 <= caps@[j as int].1 <= line@.len());
            let spec_text = substring(content, a + ca, a + cb);
            assert(spec_text@ =~= specs[j as int]);
            proof {
                assert(specs.take(j + 1).drop_last() =~= specs.take(j as int));
                assert(specs.take(j + 1).last() == specs[j as int]);
            }
            match extract_package_name(spec_text.as_str()) {
                Some(pkg) => {
                    let ghost before = out@;
                    let ghost pv = pkg@;
                    out.push((pkg, i + 1));
                    assert(imports_view(out@) =~= imports_view(before).push((pv, (i + 1) as int)));
                    assert(packages_of(specs.take(j + 1)) == packages_of(specs.take(j as int)).push(pv));
                    assert(packages_of(specs.take(j + 1)).map_values(|p: Seq<char>| (p, (i + 1) as int))
                        =~= packages_of(specs.take(j as int)).map_values(
                        |p: Seq<char>| (p, (i + 1) as int),
                    ).push((pv, (i + 1) as int)));
                },
                None => {},
            }
            j = j + 1;
        }
        assert(specs.take(nc as int) =~= specs);
        i = i + 1;
    }
    out
}

// ---------------------------------------------------------------------------
// Scan results
// ---------------------------------------------------------------------------

/// Where a package is imported: a file and a line (from 1).
pub struct Location {
    pub file: String,
    pub line: usize,
}

impl View for Location {
    type V = (Seq<char>, usize);

    open spec fn view(&self) -> (Seq<char>, usize) {
        (self.file@, self.line)
    }
}

/// Views of locations.
pub open spec fn locations_view(v: Seq<Location>) -> Seq<(Seq<char>, usize)> {
    v.map_values(|l: Location| l@)
}

/// The locations of the first entry for `k`, from position `i` on.
pub open spec fn lookup_from(entries: Seq<(String, Vec<Location>)>, k: Seq<char>, i: int) -> Option<
    (int, Seq<(Seq<char>, usize)>),
>
    decreases entries.len() - i,
{
    if i < 0 || i >= entries.len() {
        None
    } else if entries[i].0@ == k {
        Some((i, locations_view(entries[i].1@)))
    } else {
        lookup_from(entries, k, i + 1)
    }
}

/// What a scan found: how many files it read, and where each package is imported.
pub struct ScanResult {
    pub files_scanned: usize,
    pub imports_by_package: Vec<(String, Vec<Location>)>,
}

/// Locations with more appended; none stays none when nothing is appended.
pub open spec fn extend_locations(
    old: Option<Seq<(Seq<char>, usize)>>,
    add: Seq<(Seq<char>, usize)>,
) -> Option<Seq<(Seq<char>, usize)>> {
    if add.len() == 0 {
        old
    } else {
        match old {
            Some(s) => Some(s + add),
            None => Some(add),
        }
    }
}

/// The locations in `file` of the imports of package `k` among `imps`.
pub open spec fn locations_added(imps: Seq<(Seq<char>, int)>, file: Seq<char>, k: Seq<char>) -> Seq<
    (Seq<char>, usize),
>
    decreases imps.len(),
{
    if imps.len() == 0 {
        Seq::empty()
    } else {
        let prev = locations_added(imps.drop_last(), file, k);
        if imps.last().0 == k {
            prev.push((file, imps.last().1 as usize))
        } else {
            prev
        }
    }
}

impl ScanResult {
    /// The locations recorded for package `k`, if any.
    pub open spec fn locations(&self, k: Seq<char>) -> Option<Seq<(Seq<char>, usize)>> {
        match lookup_from(self.imports_by_package@, k, 0) {
            Some((_, locs)) => Some(locs),
            None => None,
        }
    }

    /// An empty result.
    pub fn new() -> (r: ScanResult)
        ensures
            r.files_scanned == 0,
            forall|k: Seq<char>| r.locations(k) is None,
    {
        ScanResult { files_scanned: 0, imports_by_package: Vec::new() }
    }

    fn find(&self, pkg: &str) -> (r: Option<usize>)
        ensures
            match r {
                Some(i) => lookup_from(self.imports_by_package@, pkg@, 0) matches Some((j, _)) && j
                    == i as int && i < self.imports_by_package@.len(),
                None => lookup_from(self.imports_by_package@, pkg@, 0) is None,
            },
    {
        let n = self.imports_by_package.len();
        let mut i: usize = 0;
        while i < n
            invariant
                n == self.imports_by_package@.len(),
                i <= n,
                lookup_from(self.imports_by_package@, pkg@, 0) == lookup_from(
                    self.imports_by_package@,
                    pkg@,
                    i as int,
                ),
            decreases n - i,
        {
            if crate::text::str_eq(self.imports_by_package[i].0.as_str(), pkg) {
                return Some(i);
            }
            i = i + 1;
        }
        None
    }

    /// The locations recorded for a package.
    pub fn get(&self, pkg: &str) -> (r: Option<&Vec<Location>>)
        ensures
            match r {
                Some(v) => self.locations(pkg@) == Some(locations_view(v@)),
                None => self.locations(pkg@) is None,
            },
    {
        proof {
            lemma_lookup_from_range(self.imports_by_package@, pkg@, 0);
        }
        match self.find(pkg) {
            Some(i) => Some(&self.imports_by_package[i].1),
            None => None,
        }
    }

    /// Records that `pkg` is imported at `loc`.
    pub fn record(&mut self, pkg: &str, loc: Location)
        ensures
            final(self).files_scanned == old(self).files_scanned,
            final(self).locations(pkg@) == extend_locations(old(self).locations(pkg@), seq![loc@]),
            forall|k: Seq<char>| k != pkg@ ==> #[trigger] final(self).locations(k) == old(self).locations(k),
    {
        let ghost old_entries = self.imports_by_package@;
        proof {
            lemma_lookup_from_range(old_entries, pkg@, 0);
        }
        match self.find(pkg) {
            Some(i) => {
                let (key, mut locs) = self.imports_by_package.remove(i);
                let ghost lv = loc@;
                locs.push(loc);
                self.imports_by_package.insert(i, (key, locs));
                proof {
                    let ne = self.imports_by_package@;
                    assert(ne.len() == old_entries.len());
                    assert forall|j: int| 0 <= j < ne.len() && j != i implies #[trigger] ne[j]
                        == old_entries[j] by {
                        if j < i {
                        } else {
                        }
                    }
                    assert(ne[i as int].0@ == pkg@);
                    assert(locations_view(ne[i as int].1@) =~= locations_view(old_entries[i as int].1@).push(lv));
                    lemma_lookup_from_update(old_entries, ne, i as int, pkg@);
                }
            },
            None => {
                let ghost lv = loc@;
                let mut locs: Vec<Location> = Vec::new();
                locs.push(loc);
                self.imports_by_package.push((pkg.to_owned(), locs));
                proof {
                    let ne = self.imports_by_package@;
                    assert(locations_view(ne.last().1@) =~= seq![lv]);
                    lemma_lookup_from_append(old_entries, ne, pkg@);
                }
            },
        }
    }

    /// Records every import of a source file read from `file`.
    pub fn scan_source(&mut self, file: &str, content: &str)
        requires
            old(self).files_scanned < usize::MAX,
        ensures
            final(self).files_scanned == old(self).files_scanned + 1,
            forall|k: Seq<char>| #[trigger] final(self).locations(k) == extend_locations(
                old(self).locations(k),
                locations_added(source_imports(content@), file@, k),
            ),
    {
        self.files_scanned = self.files_scanned + 1;
        let imps = source_imports_exec(content);
        let ghost all = imports_view(imps@);
        let ghost start = *self;
        let n = imps.len();
        let mut i: usize = 0;
        assert(all.take(0) =~= Seq::<(Seq<char>, int)>::empty());
        while i < n
            invariant
                n == imps@.len(),
                all == imports_view(imps@),
                i <= n,
                self.files_scanned == start.files_scanned,
                forall|k: Seq<char>| #[trigger] self.locations(k) == extend_locations(
                    start.locations(k),
                    locations_added(all.take(i as int), file@, k),
                ),
            decreases n - i,
        {
            let line = imps[i].1;
            let loc = Location { file: file.to_owned(), line };
            let ghost lv = loc@;
            let ghost pv = imps@[i as int].0@;
            let ghost prev = *self;
            self.record(imps[i].0.as_str(), loc);
            proof {
                let t = all.take(i + 1);
                assert(t.drop_last() =~= all.take(i as int));
                assert(t.last() == all[i as int]);
                assert(all[i as int] == (pv, line as int));
                assert forall|k: Seq<char>| #[trigger] self.locations(k) == extend_locations(
                    start.locations(k),
                    locations_added(t, file@, k),
                ) by {
                    if k == pv {
                        assert(locations_added(t, file@, k) == locations_added(all.take(i as int), file@, k).push(lv));
                        let a = locations_added(all.take(i as int), file@, k);
                        match start.locations(k) {
                            Some(s) => {
                                if a.len() > 0 {
                                    assert(s + a.push(lv) =~= (s + a).push(lv));
                                } else {
                                    assert(a =~= Seq::<(Seq<char>, usize)>::empty());
                                    assert(s + a.push(lv) =~= s.push(lv));
                                    assert(s + a =~= s);
                                }
                            },
                            None => {
                                if a.len() == 0 {
                                    assert(a.push(lv) =~= seq![lv]);
                                }
                            },
                        }
                    } else {
                        assert(locations_added(t, file@, k) == locations_added(all.take(i as int), file@, k));
                    }
                }
            }
            i = i + 1;
        }
        assert(all.take(n as int) =~= all);
    }
}

proof fn lemma_lookup_from_range(entries: Seq<(String, Vec<Location>)>, k: Seq<char>, i: int)
    requires
        i >= 0,
    ensures
        match lookup_from(entries, k, i) {
            Some((j, locs)) => i <= j < entries.len() && entries[j].0@ == k && locs == locations_view(
                entries[j].1@,
            ) && forall|m: int| i <= m < j ==> entries[m].0@ != k,
            None => forall|m: int| i <= m < entries.len() ==> entries[m].0@ != k,
        },
    decreases entries.len() - i,
{
    if i < entries.len() && entries[i].0@ != k {
        lemma_lookup_from_range(entries, k, i + 1);
    }
}

proof fn lemma_lookup_same_from(
    a: Seq<(String, Vec<Location>)>,
    b: Seq<(String, Vec<Location>)>,
    k: Seq<char>,
    i: int,
    lim: int,
)
    requires
        0 <= i <= lim,
        lim <= a.len(),
        lim <= b.len(),
        forall|m: int| i <= m < lim ==> #[trigger] a[m] == b[m],
        forall|m: int| i <= m < lim ==> a[m].0@ != k,
    ensures
        lookup_from(a, k, i) == lookup_from(a, k, lim),
        lookup_from(b, k, i) == lookup_from(b, k, lim),
    decreases lim - i,
{
    if i < lim {
        assert(a[i] == b[i]);
        assert(a[i].0@ != k);
        assert(b[i].0@ != k);
        lemma_lookup_same_from(a, b, k, i + 1, lim);
    }
}

proof fn lemma_lookup_from_agree(
    a: Seq<(String, Vec<Location>)>,
    b: Seq<(String, Vec<Location>)>,
    k: Seq<char>,
    i: int,
)
    requires
        0 <= i,
        a.len() == b.len(),
        forall|m: int| i <= m < a.len() ==> #[trigger] a[m] == b[m],
    ensures
        lookup_from(a, k, i) == lookup_from(b, k, i),
    decreases a.len() - i,
{
    if i < a.len() {
        assert(a[i] == b[i]);
        lemma_lookup_from_agree(a, b, k, i + 1);
    }
}

proof fn lemma_lookup_from_update(
    old_e: Seq<(String, Vec<Location>)>,
    new_e: Seq<(String, Vec<Location>)>,
    i: int,
    key: Seq<char>,
)
    requires
        0 <= i < old_e.len(),
        new_e.len() == old_e.len(),
        forall|j: int| 0 <= j < new_e.len() && j != i ==> #[trigger] new_e[j] == old_e[j],
        old_e[i].0@ == key,
        new_e[i].0@ == key,
        lookup_from(old_e, key, 0) matches Some((j, _)) && j == i,
    ensures
        forall|k: Seq<char>| k != key ==> #[trigger] lookup_from(new_e, k, 0) == lookup_from(old_e, k, 0),
        lookup_from(new_e, key, 0) == Some((i, locations_view(new_e[i].1@))),
{
    lemma_lookup_from_range(old_e, key, 0);
    assert forall|k: Seq<char>| k != key implies #[trigger] lookup_from(new_e, k, 0) == lookup_from(old_e, k, 0) by {
        lemma_lookup_from_range(old_e, k, 0);
        lemma_lookup_from_range(new_e, k, 0);
        match lookup_from(old_e, k, 0) {
            Some((j, _)) => {
                if j < i {
                    lemma_lookup_same_from(old_e, new_e, k, 0, j);
                    assert(old_e[j] == new_e[j]);
                } else {
                    lemma_lookup_same_from(old_e, new_e, k, 0, i);
                    lemma_lookup_from_agree(old_e, new_e, k, i + 1);
                }
            },
            None => {
                lemma_lookup_same_from(old_e, new_e, k, 0, i);
                lemma_lookup_from_agree(old_e, new_e, k, i + 1);
            },
        }
    }
    lemma_lookup_same_from(old_e, new_e, key, 0, i);
}

proof fn lemma_lookup_from_append(
    old_e: Seq<(String, Vec<Location>)>,
    new_e: Seq<(String, Vec<Location>)>,
    key: Seq<char>,
)
    requires
        new_e.len() == old_e.len() + 1,
        forall|j: int| 0 <= j < old_e.len() ==> #[trigger] new_e[j] == old_e[j],
        new_e.last().0@ == key,
        lookup_from(old_e, key, 0) is None,
    ensures
        forall|k: Seq<char>| k != key ==> #[trigger] lookup_from(new_e, k, 0) == lookup_from(old_e, k, 0),
        lookup_from(new_e, key, 0) == Some((old_e.len() as int, locations_view(new_e.last().1@))),
{
    lemma_lookup_from_range(old_e, key, 0);
    assert forall|k: Seq<char>| k != key implies #[trigger] lookup_from(new_e, k, 0) == lookup_from(old_e, k, 0) by {
        lemma_lookup_from_range(old_e, k, 0);
        match lookup_from(old_e, k, 0) {
            Some((j, _)) => {
                lemma_lookup_same_from(old_e, new_e, k, 0, j);
                assert(old_e[j] == new_e[j]);
            },
            None => {
                lemma_lookup_same_from(old_e, new_e, k, 0, old_e.len() as int);
                assert(new_e[old_e.len() as int].0@ != k);
                assert(lookup_from(new_e, k, old_e.len() as int) == lookup_from(new_e, k, old_e.len() + 1int));
                assert(lookup_from(old_e, k, old_e.len() as int) is None);
            },
        }
    }
    lemma_lookup_same_from(old_e, new_e, key, 0, old_e.len() as int);
}

} // verus!
