//! The text pieces of package rows and details.
use vstd::prelude::*;
use vstd::utf8::{decode_utf8, encode_utf8, encode_utf8_decode_utf8, is_char_boundary};
use crate::analyze::{opt_view, AnalyzeReport, PackageFinding};
use crate::scanner::Location;
use crate::api::Library;
use crate::text::{byte_len, str_eq, views};
use crate::ui::{
    bold, bold_text, cyan_text, dim, dim_text, error, green_text, info, red_text, success, warn,
    yellow_text,
};

verus! {

pub open spec fn yes_no_spec(b: bool) -> Seq<char> {
    if b {
        "yes"@
    } else {
        "no"@
    }
}

/// `yes` or `no`.
pub fn yes_no(b: bool) -> (r: String)
    ensures
        r@ == yes_no_spec(b),
{
    if b {
        "yes".to_owned()
    } else {
        "no".to_owned()
    }
}

/// iOS, Android and Web support as `yes/no/yes`.
pub fn platforms(l: &Library) -> (r: String)
    ensures
        r@ == yes_no_spec(l.ios) + "/"@ + yes_no_spec(l.android) + "/"@ + yes_no_spec(l.web),
{
    let a = yes_no(l.ios);
    let b = yes_no(l.android);
    let c = yes_no(l.web);
    a.concat("/").concat(b.as_str()).concat("/").concat(c.as_str())
}

/// The parts joined with a separator.
pub open spec fn join(parts: Seq<Seq<char>>, sep: Seq<char>) -> Seq<char>
    decreases parts.len(),
{
    if parts.len() == 0 {
        Seq::empty()
    } else if parts.len() == 1 {
        parts[0]
    } else {
        join(parts.drop_last(), sep) + sep + parts.last()
    }
}

/// Joins string slices with a separator.
pub fn join_strs(parts: &Vec<&str>, sep: &str) -> (r: String)
    ensures
        r@ == join(parts@.map_values(|p: &str| p@), sep@),
{
    let ghost ps = parts@.map_values(|p: &str| p@);
    let mut out = String::new();
    let n = parts.len();
    let mut i: usize = 0;
    assert(ps.take(0) =~= Seq::<Seq<char>>::empty());
    while i < n
        invariant
            n == parts@.len(),
            ps == parts@.map_values(|p: &str| p@),
            i <= n,
            out@ == join(ps.take(i as int), sep@),
        decreases n - i,
    {
        if i == 0 {
            out = out.concat(parts[i]);
            assert(ps.take(1) =~= seq![ps[0]]);
        } else {
            out = out.concat(sep).concat(parts[i]);
            assert(ps.take(i + 1).drop_last() =~= ps.take(i as int));
        }
        i = i + 1;
    }
    assert(ps.take(n as int) =~= ps);
    out
}

/// The short platform tags of a row: `ios`, `and`, `web` for the supported ones.
pub open spec fn row_platform_tags(l: &Library) -> Seq<Seq<char>> {
    let a = if l.ios {
        seq!["ios"@]
    } else {
        Seq::empty()
    };
    let b = if l.android {
        a.push("and"@)
    } else {
        a
    };
    if l.web {
        b.push("web"@)
    } else {
        b
    }
}

/// The platform column of a row, comma-separated.
pub fn row_platforms(l: &Library) -> (r: String)
    ensures
        r@ == join(row_platform_tags(l), ","@),
{
    let mut p: Vec<&str> = Vec::new();
    if l.ios {
        p.push("ios");
    }
    if l.android {
        p.push("and");
    }
    if l.web {
        p.push("web");
    }
    assert(p@.map_values(|s: &str| s@) =~= row_platform_tags(l));
    join_strs(&p, ",")
}

/// The "runs on" names of the details view: iOS, Android, Web, Expo.
pub open spec fn runs_on_names(l: &Library) -> Seq<Seq<char>> {
    let a = if l.ios {
        seq!["iOS"@]
    } else {
        Seq::empty()
    };
    let b = if l.android {
        a.push("Android"@)
    } else {
        a
    };
    let c = if l.web {
        b.push("Web"@)
    } else {
        b
    };
    if l.expo {
        c.push("Expo"@)
    } else {
        c
    }
}

/// The "runs on" line of the details view, separated by `, `.
pub fn runs_on(l: &Library) -> (r: String)
    ensures
        r@ == join(runs_on_names(l), ", "@),
{
    let mut p: Vec<&str> = Vec::new();
    if l.ios {
        p.push("iOS");
    }
    if l.android {
        p.push("Android");
    }
    if l.web {
        p.push("Web");
    }
    if l.expo {
        p.push("Expo");
    }
    assert(p@.map_values(|s: &str| s@) =~= runs_on_names(l));
    join_strs(&p, ", ")
}

/// Maintenance status shown for a package.
#[derive(Clone, Copy, PartialEq, Eq, Structural, Debug)]
pub enum MaintenanceStatus {
    Archived,
    Unmaintained,
    Maintained,
}

/// Archived when the repository is archived, else unmaintained when flagged so.
pub fn maintenance_status(l: &Library) -> (r: MaintenanceStatus)
    ensures
        r == (if l.spec_is_archived() {
            MaintenanceStatus::Archived
        } else if l.unmaintained {
            MaintenanceStatus::Unmaintained
        } else {
            MaintenanceStatus::Maintained
        }),
{
    if l.is_archived() {
        MaintenanceStatus::Archived
    } else if l.unmaintained {
        MaintenanceStatus::Unmaintained
    } else {
        MaintenanceStatus::Maintained
    }
}

proof fn lemma_encode_utf8_concat(a: Seq<char>, b: Seq<char>)
    ensures
        encode_utf8(a + b) == encode_utf8(a) + encode_utf8(b),
    decreases a.len(),
{
    if a.len() == 0 {
        assert(a + b =~= b);
        assert(encode_utf8(a) =~= Seq::<u8>::empty());
        assert(Seq::<u8>::empty() + encode_utf8(b) =~= encode_utf8(b));
    } else {
        lemma_encode_utf8_concat(a.drop_first(), b);
        assert((a + b).drop_first() =~= a.drop_first() + b);
        assert((a + b)[0] == a[0]);
    }
}

/// The characters of the first 70 bytes of a description followed by `…` when
/// the description is longer than that, else the description.
pub open spec fn short_description(desc: Seq<char>) -> Seq<char> {
    if byte_len(desc) > 70 {
        decode_utf8(encode_utf8(desc).subrange(0, 70)) + "…"@
    } else {
        desc
    }
}

/// A description cut to its first 70 bytes followed by `…` when longer than that.
pub fn truncate_description(desc: &str) -> (r: String)
    requires
        byte_len(desc@) > 70 ==> is_char_boundary(encode_utf8(desc@), 70),
    ensures
        if byte_len(desc@) > 70 {
            encode_utf8(r@) == encode_utf8(desc@).subrange(0, 70) + encode_utf8("…"@)
        } else {
            r@ == desc@
        },
        r@ == short_description(desc@),
{
    if desc.len() > 70 {
        let (head, _) = desc.split_at(70);
        let r = head.to_owned().concat("…");
        proof {
            lemma_encode_utf8_concat(head@, "…"@);
            encode_utf8_decode_utf8(head@);
        }
        r
    } else {
        desc.to_owned()
    }
}

/// A finding reports an archived or unmaintained package.
pub fn finding_is_dead(f: &PackageFinding) -> (r: bool)
    ensures
        r == (views(f.flags@).contains("archived"@) || views(f.flags@).contains("unmaintained"@)),
{
    let n = f.flags.len();
    let mut i: usize = 0;
    while i < n
        invariant
            n == f.flags@.len(),
            i <= n,
            forall|j: int| 0 <= j < i ==> f.flags@[j]@ != "archived"@ && f.flags@[j]@ != "unmaintained"@,
        decreases n - i,
    {
        if str_eq(f.flags[i].as_str(), "archived") || str_eq(f.flags[i].as_str(), "unmaintained") {
            assert(views(f.flags@)[i as int] == f.flags@[i as int]@);
            return true;
        }
        i = i + 1;
    }
    assert forall|j: int| 0 <= j < views(f.flags@).len() implies views(f.flags@)[j] != "archived"@
        && views(f.flags@)[j] != "unmaintained"@ by {
        assert(views(f.flags@)[j] == f.flags@[j]@);
    }
    false
}

/// `n` spaces (none when `n` is not positive).
pub open spec fn spaces(n: int) -> Seq<char> {
    Seq::new(if n > 0 { n as nat } else { 0 }, |i: int| ' ')
}

/// `s` followed by spaces up to `w` characters, as `{:<w}` formats it.
pub open spec fn pad_right(s: Seq<char>, w: int) -> Seq<char> {
    s + spaces(w - s.len())
}

/// `s` preceded by spaces up to `w` characters, as `{:>w}` formats it.
pub open spec fn pad_left(s: Seq<char>, w: int) -> Seq<char> {
    spaces(w - s.len()) + s
}

fn spaces_string(n: usize) -> (r: String)
    ensures
        r@ == spaces(n as int),
{
    let mut out = String::new();
    let mut i: usize = 0;
    proof {
        reveal_strlit(" ");
    }
    assert(out@ =~= spaces(0));
    while i < n
        invariant
            i <= n,
            out@ == spaces(i as int),
        decreases n - i,
    {
        proof {
            reveal_strlit(" ");
        }
        out.append(" ");
        i = i + 1;
        assert(out@ =~= spaces(i as int));
    }
    out
}

/// Pads on the right with spaces to `w` characters.
pub fn pad_right_str(s: &str, w: usize) -> (r: String)
    ensures
        r@ == pad_right(s@, w as int),
{
    let n = s.unicode_len();
    let fill = if n < w {
        spaces_string(w - n)
    } else {
        let e = spaces_string(0);
        assert(spaces(0) =~= spaces(w - n));
        e
    };
    s.to_owned().concat(fill.as_str())
}

/// Pads on the left with spaces to `w` characters.
pub fn pad_left_str(s: &str, w: usize) -> (r: String)
    ensures
        r@ == pad_left(s@, w as int),
{
    let n = s.unicode_len();
    let fill = if n < w {
        spaces_string(w - n)
    } else {
        let e = spaces_string(0);
        assert(spaces(0) =~= spaces(w - n));
        e
    };
    fill.concat(s)
}

/// The decimal digit `d`.
pub open spec fn digit(d: int) -> char {
    (48 + d) as char
}

/// The decimal notation of `n`, as `to_string` writes it.
pub open spec fn decimal(n: nat) -> Seq<char>
    decreases n,
{
    if n < 10 {
        seq![digit(n as int)]
    } else {
        decimal(n / 10).push(digit((n % 10) as int))
    }
}

fn digit_str(d: usize) -> (r: &'static str)
    requires
        d < 10,
    ensures
        r@ == seq![digit(d as int)],
{
    proof {
        reveal_strlit("0");
        reveal_strlit("1");
        reveal_strlit("2");
        reveal_strlit("3");
        reveal_strlit("4");
        reveal_strlit("5");
        reveal_strlit("6");
        reveal_strlit("7");
        reveal_strlit("8");
        reveal_strlit("9");
    }
    if d == 0 {
        "0"
    } else if d == 1 {
        "1"
    } else if d == 2 {
        "2"
    } else if d == 3 {
        "3"
    } else if d == 4 {
        "4"
    } else if d == 5 {
        "5"
    } else if d == 6 {
        "6"
    } else if d == 7 {
        "7"
    } else if d == 8 {
        "8"
    } else {
        "9"
    }
}

/// The decimal notation of `n`.
pub fn decimal_string(n: usize) -> (r: String)
    ensures
        r@ == decimal(n as nat),
    decreases n,
{
    if n < 10 {
        digit_str(n).to_owned()
    } else {
        let mut s = decimal_string(n / 10);
        s.append(digit_str(n % 10));
        s
    }
}

/// The marker after a row: ` [archived]` in red, ` [unmaintained]` in yellow, or nothing.
pub open spec fn row_marker(l: &Library) -> Seq<char> {
    if l.spec_is_archived() {
        " "@ + red_text("[archived]"@)
    } else if l.unmaintained {
        " "@ + yellow_text("[unmaintained]"@)
    } else {
        Seq::empty()
    }
}

/// A package row: the bold name padded to 40 characters, `★` and the star
/// count right-aligned to 7 in yellow, the weekly downloads right-aligned to 8
/// in cyan and `/wk`, the platform tags right-aligned to 11 and dim between
/// brackets, the maintenance marker, then on an indented second line the
/// shortened description, dim. The counts come already formatted.
pub open spec fn spec_row(l: &Library, stars: Seq<char>, downloads: Seq<char>) -> Seq<char> {
    bold_text(pad_right(l.spec_name(), 40)) + " "@ + yellow_text(pad_left("★"@ + stars, 7)) + " "@
        + cyan_text(pad_left(downloads, 8)) + "/wk  ["@ + dim_text(
        pad_left(join(row_platform_tags(l), ","@), 11),
    ) + "]"@ + row_marker(l) + "\n    "@ + dim_text(short_description(l.spec_description()))
}

/// The text of a package row, given its formatted star and download counts.
pub fn row_text(l: &Library, stars: &str, downloads: &str) -> (r: String)
    requires
        byte_len(l.spec_description()) > 70 ==> is_char_boundary(encode_utf8(l.spec_description()), 70),
    ensures
        r@ == spec_row(l, stars@, downloads@),
{
    let name = pad_right_str(l.name(), 40);
    let mut out = bold(name.as_str());
    out.append(" ");
    let star = "★".to_owned().concat(stars);
    out.append(warn(pad_left_str(star.as_str(), 7).as_str()).as_str());
    out.append(" ");
    out.append(info(pad_left_str(downloads, 8).as_str()).as_str());
    out.append("/wk  [");
    let plat = row_platforms(l);
    out.append(dim(pad_left_str(plat.as_str(), 11).as_str()).as_str());
    out.append("]");
    match maintenance_status(l) {
        MaintenanceStatus::Archived => {
            out.append(" ");
            out.append(error("[archived]").as_str());
        },
        MaintenanceStatus::Unmaintained => {
            out.append(" ");
            out.append(warn("[unmaintained]").as_str());
        },
        MaintenanceStatus::Maintained => {
            assert(out@ + Seq::<char>::empty() =~= out@);
        },
    }
    out.append("\n    ");
    out.append(dim(truncate_description(l.description()).as_str()).as_str());
    out
}

/// The formatted numbers of a finding: its star count, its weekly downloads
/// and its directory score when it has one.
pub struct FindingNumbers {
    pub stars: String,
    pub downloads: String,
    pub score: Option<String>,
}

/// The views of a finding's numbers.
pub open spec fn numbers_view(n: &FindingNumbers) -> (Seq<char>, Seq<char>, Option<Seq<char>>) {
    (n.stars@, n.downloads@, opt_view(n.score))
}

/// The characters of the first `k` bytes of `s`, or all of `s` when shorter.
pub open spec fn first_bytes(s: Seq<char>, k: int) -> Seq<char> {
    if byte_len(s) > k {
        decode_utf8(encode_utf8(s).subrange(0, k))
    } else {
        s
    }
}

/// The report's first line: files scanned, dependencies and flagged ones.
pub open spec fn header_line(r: &AnalyzeReport) -> Seq<char> {
    "Scanned "@ + bold_text(decimal(r.files_scanned as nat)) + " source files, "@ + bold_text(
        decimal(r.deps_total as nat),
    ) + " deps, "@ + yellow_text(decimal(r.deps_flagged as nat)) + " flagged"@
}

/// ` — used in N file(s)`, or nothing for no use.
pub open spec fn used_summary(n: nat) -> Seq<char> {
    if n == 0 {
        Seq::empty()
    } else {
        " — used in "@ + decimal(n) + if n == 1 {
            " file"@
        } else {
            " files"@
        }
    }
}

/// The first line of a finding: a red `⚠` for an archived or unmaintained
/// package, else a yellow `•`, the bold package name and the dim use summary.
pub open spec fn finding_head(f: &PackageFinding) -> Seq<char> {
    let dead = views(f.flags@).contains("archived"@) || views(f.flags@).contains("unmaintained"@);
    (if dead {
        red_text("⚠"@)
    } else {
        yellow_text("•"@)
    }) + " "@ + bold_text(f.package@) + dim_text(used_summary(f.used_in@.len()))
}

/// The parts of a finding's stats line: stars and weekly downloads when
/// positive, the score when known, and the first ten bytes of the push date.
pub open spec fn stats_parts(f: &PackageFinding, n: (Seq<char>, Seq<char>, Option<Seq<char>>)) -> Seq<
    Seq<char>,
> {
    let a = if f.stars > 0 {
        seq!["★"@ + n.0]
    } else {
        Seq::empty()
    };
    let b = if f.weekly_downloads > 0 {
        a.push(n.1 + "/wk"@)
    } else {
        a
    };
    let c = match n.2 {
        Some(sc) => b.push("score "@ + sc),
        None => b,
    };
    match opt_view(f.last_pushed_at) {
        Some(p) => c.push("pushed "@ + first_bytes(p, 10)),
        None => c,
    }
}

/// The line of one import location: the dim file, `:` and the dim line number.
pub open spec fn location_line(loc: Location) -> Seq<char> {
    "    "@ + dim_text(loc.file@) + ":"@ + dim_text(decimal(loc.line as nat))
}

/// The lines of a finding: its head; one `- flag` line per flag; the
/// alternatives already in the project; the repository; the stats; at most
/// five import locations and how many more there are.
pub open spec fn finding_lines(f: &PackageFinding, n: (Seq<char>, Seq<char>, Option<Seq<char>>)) -> Seq<
    Seq<char>,
> {
    seq![finding_head(f)] + views(f.flags@).map_values(|fl: Seq<char>| "    - "@ + dim_text(fl))
        + middle_lines(f, n) + location_lines(f)
}

/// The lines of the first `k` findings.
pub open spec fn findings_lines(
    fs: Seq<PackageFinding>,
    ns: Seq<(Seq<char>, Seq<char>, Option<Seq<char>>)>,
    k: int,
) -> Seq<Seq<char>>
    decreases k,
{
    if k <= 0 {
        Seq::empty()
    } else {
        findings_lines(fs, ns, k - 1) + finding_lines(&fs[k - 1], ns[k - 1])
    }
}

/// The lines of the analysis report: the header and a blank line, then either
/// a green `✓ no issues found` or the lines of every finding.
pub open spec fn report_lines_spec(r: &AnalyzeReport, ns: Seq<(Seq<char>, Seq<char>, Option<Seq<char>>)>) -> Seq<
    Seq<char>,
> {
    let head = seq![header_line(r), Seq::empty()];
    if r.package_findings@.len() == 0 {
        head.push(green_text("✓"@) + " "@ + "no issues found"@)
    } else {
        head + findings_lines(r.package_findings@, ns, r.package_findings@.len() as int)
    }
}

/// Every push date of the findings can be cut at ten bytes.
pub open spec fn push_dates_cuttable(r: &AnalyzeReport) -> bool {
    forall|k: int|
        0 <= k < r.package_findings@.len() ==> match opt_view(#[trigger] r.package_findings@[k].last_pushed_at) {
            Some(p) => byte_len(p) > 10 ==> is_char_boundary(encode_utf8(p), 10),
            None => true,
        }
}

fn push_line(out: &mut Vec<String>, s: String)
    ensures
        views(final(out)@) == views(old(out)@).push(s@),
{
    let ghost before = views(out@);
    out.push(s);
    assert(views(out@) =~= before.push(s@));
}

fn cut_bytes(s: &str, k: usize) -> (r: String)
    requires
        byte_len(s@) > k ==> is_char_boundary(encode_utf8(s@), k as int),
    ensures
        r@ == first_bytes(s@, k as int),
{
    if s.len() > k {
        let (head, _) = s.split_at(k);
        proof {
            encode_utf8_decode_utf8(head@);
        }
        head.to_owned()
    } else {
        s.to_owned()
    }
}

fn stats_text(f: &PackageFinding, n: &FindingNumbers) -> (r: Option<String>)
    requires
        match opt_view(f.last_pushed_at) {
            Some(p) => byte_len(p) > 10 ==> is_char_boundary(encode_utf8(p), 10),
            None => true,
        },
    ensures
        match r {
            Some(t) => stats_parts(f, numbers_view(n)).len() > 0 && t@ == join(stats_parts(f, numbers_view(n)), "  "@),
            None => stats_parts(f, numbers_view(n)).len() == 0,
        },
{
    let mut parts: Vec<String> = Vec::new();
    if f.stars > 0 {
        parts.push("★".to_owned().concat(n.stars.as_str()));
    }
    if f.weekly_downloads > 0 {
        parts.push(n.downloads.clone().concat("/wk"));
    }
    if let Some(sc) = &n.score {
        parts.push("score ".to_owned().concat(sc.as_str()));
    }
    if let Some(p) = &f.last_pushed_at {
        parts.push("pushed ".to_owned().concat(cut_bytes(p.as_str(), 10).as_str()));
    }
    assert(views(parts@) =~= stats_parts(f, numbers_view(n)));
    if parts.len() == 0 {
        return None;
    }
    Some(join_strings(&parts, "  "))
}

fn join_strings(v: &Vec<String>, sep: &str) -> (r: String)
    ensures
        r@ == join(views(v@), sep@),
{
    let ghost ps = views(v@);
    let mut out = String::new();
    let n = v.len();
    let mut i: usize = 0;
    assert(ps.take(0) =~= Seq::<Seq<char>>::empty());
    while i < n
        invariant
            n == v@.len(),
            ps == views(v@),
            i <= n,
            out@ == join(ps.take(i as int), sep@),
        decreases n - i,
    {
        if i == 0 {
            out = out.concat(v[i].as_str());
            assert(ps.take(1) =~= seq![ps[0]]);
        } else {
            out = out.concat(sep).concat(v[i].as_str());
            assert(ps.take(i + 1).drop_last() =~= ps.take(i as int));
        }
        i = i + 1;
    }
    assert(ps.take(n as int) =~= ps);
    out
}

fn finding_head_line(f: &PackageFinding) -> (r: String)
    ensures
        r@ == finding_head(f),
{
    let dead = finding_is_dead(f);
    let badge = if dead {
        error("⚠")
    } else {
        warn("•")
    };
    let k = f.used_in.len();
    let summary = if k == 0 {
        String::new()
    } else {
        let word = if k == 1 {
            " file"
        } else {
            " files"
        };
        " — used in ".to_owned().concat(decimal_string(k).as_str()).concat(word)
    };
    assert(summary@ == used_summary(k as nat));
    badge.concat(" ").concat(bold(f.package.as_str()).as_str()).concat(dim(summary.as_str()).as_str())
}

fn push_flag_lines(out: &mut Vec<String>, f: &PackageFinding)
    ensures
        views(final(out)@) == views(old(out)@) + views(f.flags@).map_values(
            |fl: Seq<char>| "    - "@ + dim_text(fl),
        ),
{
    let ghost start = views(out@);
    let nf = f.flags.len();
    let mut i: usize = 0;
    let ghost flag_lines = views(f.flags@).map_values(|fl: Seq<char>| "    - "@ + dim_text(fl));
    assert(flag_lines.take(0) =~= Seq::<Seq<char>>::empty());
    assert(start + flag_lines.take(0) =~= start);
    while i < nf
        invariant
            nf == f.flags@.len(),
            i <= nf,
            flag_lines == views(f.flags@).map_values(|fl: Seq<char>| "    - "@ + dim_text(fl)),
            views(out@) == start + flag_lines.take(i as int),
        decreases nf - i,
    {
        let line = "    - ".to_owned().concat(dim(f.flags[i].as_str()).as_str());
        push_line(out, line);
        i = i + 1;
        assert(flag_lines.take(i as int) =~= flag_lines.take(i - 1).push(flag_lines[i - 1]));
    }
    assert(flag_lines.take(nf as int) =~= flag_lines);
}

/// The optional lines of a finding between its flags and its locations.
pub open spec fn middle_lines(f: &PackageFinding, n: (Seq<char>, Seq<char>, Option<Seq<char>>)) -> Seq<Seq<char>> {
    let alts = if f.alternatives_in_project@.len() > 0 {
        seq![
            "    "@ + cyan_text("already in deps that could cover this:"@) + " "@ + join(
                views(f.alternatives_in_project@),
                ", "@,
            ),
        ]
    } else {
        Seq::empty()
    };
    let repo = match opt_view(f.github_url) {
        Some(u) => seq!["    "@ + dim_text("repo:"@) + " "@ + dim_text(u)],
        None => Seq::empty(),
    };
    let sp = stats_parts(f, n);
    let stats = if sp.len() > 0 {
        seq!["    "@ + dim_text("stats:"@) + " "@ + dim_text(join(sp, "  "@))]
    } else {
        Seq::empty()
    };
    alts + repo + stats
}

fn push_middle_lines(out: &mut Vec<String>, f: &PackageFinding, n: &FindingNumbers)
    requires
        match opt_view(f.last_pushed_at) {
            Some(p) => byte_len(p) > 10 ==> is_char_boundary(encode_utf8(p), 10),
            None => true,
        },
    ensures
        views(final(out)@) == views(old(out)@) + middle_lines(f, numbers_view(n)),
{
    let ghost start = views(out@);
    if f.alternatives_in_project.len() > 0 {
        let line = "    ".to_owned().concat(info("already in deps that could cover this:").as_str()).concat(
            " ",
        ).concat(join_strings(&f.alternatives_in_project, ", ").as_str());
        push_line(out, line);
    }
    let ghost a1 = views(out@);
    if let Some(u) = &f.github_url {
        let line = "    ".to_owned().concat(dim("repo:").as_str()).concat(" ").concat(
            dim(u.as_str()).as_str(),
        );
        push_line(out, line);
    }
    let ghost a2 = views(out@);
    if let Some(t) = stats_text(f, n) {
        let line = "    ".to_owned().concat(dim("stats:").as_str()).concat(" ").concat(
            dim(t.as_str()).as_str(),
        );
        push_line(out, line);
    }
    assert(views(out@) =~= start + middle_lines(f, numbers_view(n)));
}

/// The location lines of a finding: at most five, then how many more there are.
pub open spec fn location_lines(f: &PackageFinding) -> Seq<Seq<char>> {
    let k = f.used_in@.len();
    let shown = if k < 5 {
        k as int
    } else {
        5
    };
    let locs = f.used_in@.take(shown).map_values(|loc: Location| location_line(loc));
    let more = if k > 5 {
        seq!["    "@ + dim_text("…"@) + " (+"@ + decimal((k - 5) as nat) + " more)"@]
    } else {
        Seq::empty()
    };
    locs + more
}

fn push_location_lines(out: &mut Vec<String>, f: &PackageFinding)
    ensures
        views(final(out)@) == views(old(out)@) + location_lines(f),
{
    let ghost start = views(out@);
    let k = f.used_in.len();
    let shown = if k < 5 {
        k
    } else {
        5
    };
    let ghost locs = f.used_in@.take(shown as int).map_values(|loc: Location| location_line(loc));
    let mut j: usize = 0;
    assert(start + locs.take(0) =~= start);
    while j < shown
        invariant
            shown <= k,
            k == f.used_in@.len(),
            j <= shown,
            locs == f.used_in@.take(shown as int).map_values(|loc: Location| location_line(loc)),
            views(out@) == start + locs.take(j as int),
        decreases shown - j,
    {
        let loc = &f.used_in[j];
        let line = "    ".to_owned().concat(dim(loc.file.as_str()).as_str()).concat(":").concat(
            dim(decimal_string(loc.line).as_str()).as_str(),
        );
        push_line(out, line);
        j = j + 1;
        assert(locs.take(j as int) =~= locs.take(j - 1).push(locs[j - 1]));
    }
    assert(locs.take(shown as int) =~= locs);
    if k > 5 {
        let line = "    ".to_owned().concat(dim("…").as_str()).concat(" (+").concat(
            decimal_string(k - 5).as_str(),
        ).concat(" more)");
        push_line(out, line);
    }
    assert(views(out@) =~= start + location_lines(f));
}

fn push_finding_lines(out: &mut Vec<String>, f: &PackageFinding, n: &FindingNumbers)
    requires
        match opt_view(f.last_pushed_at) {
            Some(p) => byte_len(p) > 10 ==> is_char_boundary(encode_utf8(p), 10),
            None => true,
        },
    ensures
        views(final(out)@) == views(old(out)@) + finding_lines(f, numbers_view(n)),
{
    let ghost start = views(out@);
    push_line(out, finding_head_line(f));
    push_flag_lines(out, f);
    push_middle_lines(out, f, n);
    push_location_lines(out, f);
    assert(views(out@) =~= start + finding_lines(f, numbers_view(n)));
}

/// The lines of the analysis report, given each finding's formatted numbers.
pub fn report_lines(r: &AnalyzeReport, numbers: &Vec<FindingNumbers>) -> (out: Vec<String>)
    requires
        numbers@.len() == r.package_findings@.len(),
        push_dates_cuttable(r),
    ensures
        views(out@) == report_lines_spec(r, numbers@.map_values(|n: FindingNumbers| numbers_view(&n))),
{
    let ghost ns = numbers@.map_values(|n: FindingNumbers| numbers_view(&n));
    let mut out: Vec<String> = Vec::new();
    let header = "Scanned ".to_owned().concat(bold(decimal_string(r.files_scanned).as_str()).as_str()).concat(
        " source files, ",
    ).concat(bold(decimal_string(r.deps_total).as_str()).as_str()).concat(" deps, ").concat(
        warn(decimal_string(r.deps_flagged).as_str()).as_str(),
    ).concat(" flagged");
    assert(views(out@) =~= Seq::<Seq<char>>::empty());
    push_line(&mut out, header);
    push_line(&mut out, String::new());
    let nf = r.package_findings.len();
    if nf == 0 {
        let line = success("✓").concat(" ").concat("no issues found");
        push_line(&mut out, line);
        assert(views(out@) =~= report_lines_spec(r, ns));
        return out;
    }
    let ghost head = views(out@);
    let mut i: usize = 0;
    while i < nf
        invariant
            nf == r.package_findings@.len(),
            numbers@.len() == nf,
            ns == numbers@.map_values(|n: FindingNumbers| numbers_view(&n)),
            push_dates_cuttable(r),
            i <= nf,
            views(out@) == head + findings_lines(r.package_findings@, ns, i as int),
        decreases nf - i,
    {
        assert(match opt_view(r.package_findings@[i as int].last_pushed_at) {
            Some(p) => byte_len(p) > 10 ==> is_char_boundary(encode_utf8(p), 10),
            None => true,
        });
        let ghost prev = views(out@);
        push_finding_lines(&mut out, &r.package_findings[i], &numbers[i]);
        assert(ns[i as int] == numbers_view(&numbers@[i as int]));
        assert(findings_lines(r.package_findings@, ns, i + 1) == findings_lines(r.package_findings@, ns, i as int)
            + finding_lines(&r.package_findings@[i as int], ns[i as int]));
        i = i + 1;
        assert(views(out@) =~= head + findings_lines(r.package_findings@, ns, i as int));
    }
    out
}

/// One `label value` line of the details view, the label dim and indented.
pub open spec fn detail_line(label: Seq<char>, value: Seq<char>) -> Seq<char> {
    "  "@ + dim_text(label) + " "@ + value
}

/// The repository lines of the details view: TypeScript types, New
/// Architecture support and license, shown only with repository data.
pub open spec fn detail_repo_lines(l: &Library) -> Seq<Seq<char>> {
    match &l.github {
        Some(g) => {
            let a = if g.has_types {
                seq![detail_line("typescript:"@, "yes"@)]
            } else {
                Seq::empty()
            };
            let b = if l.spec_supports_new_architecture() == Some(true) {
                a.push(detail_line("new arch:"@, "yes"@))
            } else {
                a
            };
            match &g.license {
                Some(lic) => match &lic.spdx_id {
                    Some(id) => b.push(detail_line("license:"@, id@)),
                    None => b,
                },
                None => b,
            }
        },
        None => Seq::empty(),
    }
}

/// The remaining lines of the details view: release version, last push,
/// maintenance status and repository URL.
pub open spec fn detail_other_lines(l: &Library) -> Seq<Seq<char>> {
    let version = match &l.npm {
        Some(n) => match &n.latest_release {
            Some(v) => seq![detail_line("version:"@, v@)],
            None => Seq::empty(),
        },
        None => Seq::empty(),
    };
    let push = match l.spec_pushed_at() {
        Some(p) => seq![detail_line("last push:"@, p)],
        None => Seq::empty(),
    };
    let status = if l.spec_is_archived() {
        seq![detail_line("status:"@, bold_text(red_text("ARCHIVED"@)))]
    } else if l.unmaintained {
        seq![detail_line("status:"@, bold_text(yellow_text("UNMAINTAINED"@)))]
    } else {
        Seq::empty()
    };
    let url = match &l.github_url {
        Some(u) => seq![detail_line("github:"@, u@)],
        None => Seq::empty(),
    };
    version + push + status + url
}

/// The details view of a package: the bold name, the description when there
/// is one, a blank line, the stats (stars, weekly downloads and score, given
/// formatted), the platforms it runs on, then the optional lines.
pub open spec fn detail_lines_spec(l: &Library, stars: Seq<char>, downloads: Seq<char>, score: Seq<char>) -> Seq<
    Seq<char>,
> {
    let head = seq![bold_text(l.spec_name())];
    let desc = if l.spec_description().len() > 0 {
        seq!["  "@ + l.spec_description()]
    } else {
        Seq::empty()
    };
    head + desc + seq![
        Seq::empty(),
        detail_line("stats:"@, "★"@ + stars + "  ⭳ "@ + downloads + "/week  score "@ + score),
        detail_line("runs on:"@, join(runs_on_names(l), ", "@)),
    ] + detail_repo_lines(l) + detail_other_lines(l)
}

fn detail_line_text(label: &str, value: &str) -> (r: String)
    ensures
        r@ == detail_line(label@, value@),
{
    "  ".to_owned().concat(dim(label).as_str()).concat(" ").concat(value)
}

fn push_detail_repo_lines(out: &mut Vec<String>, l: &Library)
    ensures
        views(final(out)@) == views(old(out)@) + detail_repo_lines(l),
{
    let ghost start = views(out@);
    if let Some(g) = &l.github {
        if g.has_types {
            push_line(out, detail_line_text("typescript:", "yes"));
        }
        match l.supports_new_architecture() {
            Some(true) => push_line(out, detail_line_text("new arch:", "yes")),
            _ => {},
        }
        if let Some(lic) = &g.license {
            if let Some(id) = &lic.spdx_id {
                push_line(out, detail_line_text("license:", id.as_str()));
            }
        }
    }
    assert(views(out@) =~= start + detail_repo_lines(l));
}

fn push_detail_other_lines(out: &mut Vec<String>, l: &Library)
    ensures
        views(final(out)@) == views(old(out)@) + detail_other_lines(l),
{
    let ghost start = views(out@);
    if let Some(n) = &l.npm {
        if let Some(v) = &n.latest_release {
            push_line(out, detail_line_text("version:", v.as_str()));
        }
    }
    let ghost a1 = views(out@);
    if let Some(p) = l.pushed_at() {
        push_line(out, detail_line_text("last push:", p));
    }
    let ghost a2 = views(out@);
    match maintenance_status(l) {
        MaintenanceStatus::Archived => {
            push_line(out, detail_line_text("status:", bold(error("ARCHIVED").as_str()).as_str()));
        },
        MaintenanceStatus::Unmaintained => {
            push_line(out, detail_line_text("status:", bold(warn("UNMAINTAINED").as_str()).as_str()));
        },
        MaintenanceStatus::Maintained => {},
    }
    let ghost a3 = views(out@);
    if let Some(u) = &l.github_url {
        push_line(out, detail_line_text("github:", u.as_str()));
    }
    assert(views(out@) =~= start + detail_other_lines(l));
}

/// The lines of the details view, given the formatted star and download counts
/// and the score.
pub fn detail_lines(l: &Library, stars: &str, downloads: &str, score: &str) -> (r: Vec<String>)
    ensures
        views(r@) == detail_lines_spec(l, stars@, downloads@, score@),
{
    let mut out: Vec<String> = Vec::new();
    assert(views(out@) =~= Seq::<Seq<char>>::empty());
    push_line(&mut out, bold(l.name()));
    let desc = l.description();
    if desc.unicode_len() > 0 {
        push_line(&mut out, "  ".to_owned().concat(desc));
    }
    push_line(&mut out, String::new());
    let stats = "★".to_owned().concat(stars).concat("  ⭳ ").concat(downloads).concat("/week  score ").concat(score);
    push_line(&mut out, detail_line_text("stats:", stats.as_str()));
    push_line(&mut out, detail_line_text("runs on:", runs_on(l).as_str()));
    push_detail_repo_lines(&mut out, l);
    push_detail_other_lines(&mut out, l);
    assert(views(out@) =~= detail_lines_spec(l, stars@, downloads@, score@));
    out
}

} // verus!