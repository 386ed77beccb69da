//! Turning fetched web pages into text for the knowledge base: the page
//! title, and a markdown rendering of the body. Tag names are matched
//! without regard to ASCII case.
use vstd::prelude::*;
use crate::text::{
    chars_of, find_first, first_from, lower, replace_all, replace_exec, splice,
    splice_exec, slice_exec, string_of, to_lower, trim, trim_exec,
};

verus! {

/// A page fetched from the web.
#[derive(Debug)]
pub struct CrawledPage {
    pub url: String,
    pub title: String,
    pub markdown: String,
    pub html: String,
    pub crawled_at: u64,
}

/// Settings of the crawler.
#[derive(Debug)]
pub struct CrawlerConfig {
    pub user_agent: String,
    pub timeout_secs: u64,
    pub respect_robots_txt: bool,
}

/// The crawler; fetching itself happens outside the library.
#[derive(Debug)]
pub struct WebCrawler {
    config: CrawlerConfig,
}

impl CrawlerConfig {
    /// The default settings: this application's user agent, thirty seconds,
    /// robots.txt respected.
    pub fn default_config() -> (r: CrawlerConfig)
        ensures
            r.user_agent@ == "SecondBrain/1.0 (Meeting Assistant)"@,
            r.timeout_secs == 30,
            r.respect_robots_txt,
    {
        CrawlerConfig {
            user_agent: string_of(&chars_of("SecondBrain/1.0 (Meeting Assistant)")),
            timeout_secs: 30,
            respect_robots_txt: true,
        }
    }
}

impl WebCrawler {
    /// A crawler with the default settings.
    pub fn new() -> (r: WebCrawler)
        ensures
            r.config().user_agent@ == "SecondBrain/1.0 (Meeting Assistant)"@,
            r.config().timeout_secs == 30,
            r.config().respect_robots_txt,
    {
        WebCrawler::with_config(CrawlerConfig::default_config())
    }

    /// A crawler with the given settings.
    pub fn with_config(config: CrawlerConfig) -> (r: WebCrawler)
        ensures
            r.config().user_agent@ == config.user_agent@,
            r.config().timeout_secs == config.timeout_secs,
            r.config().respect_robots_txt == config.respect_robots_txt,
    {
        WebCrawler { config }
    }

    /// The settings of the crawler.
    pub closed spec fn config_spec(&self) -> &CrawlerConfig {
        &self.config
    }

    /// The settings of the crawler.
    #[verifier::when_used_as_spec(config_spec)]
    pub fn config(&self) -> (r: &CrawlerConfig)
        ensures
            r == self.config_spec(),
    {
        &self.config
    }
}

/// The title of a page: the text between the first `<title>` and the first
/// `</title>`, trimmed, when the first comes before the second.
pub open spec fn title_of(html: Seq<char>) -> Option<Seq<char>> {
    let l = lower(html);
    match (first_from(l, "<title>"@, 0), first_from(l, "</title>"@, 0)) {
        (Some(a), Some(b)) => if a < b {
            Some(trim(html.subrange(a + 7, b)))
        } else {
            None
        },
        _ => None,
    }
}

/// Finds the title of a page.
pub fn extract_title(html: &str) -> (r: Option<String>)
    ensures
        match title_of(html@) {
            Some(t) => r is Some && r->0@ == t,
            None => r is None,
        },
{
    let h = chars_of(html);
    let l = to_lower(&h);
    let open = chars_of("<title>");
    let close = chars_of("</title>");
    proof {
        reveal_strlit("<title>");
    }
    match (find_first(&l, &open, 0), find_first(&l, &close, 0)) {
        (Some(a), Some(b)) => {
            if a < b {
                proof {
                    reveal_strlit("</title>");
                    if b < a + 7 {
                        assert(l@[b as int] == "</title>"@[0]);
                        assert(l@[b as int] == "<title>"@[b - a]);
                    }
                }
                let inner = slice_exec(&h, a + 7, b);
                let t = trim_exec(&inner);
                Some(string_of(&t))
            } else {
                None
            }
        },
        _ => None,
    }
}

/// Removes elements from their opening tag `open` to the first closing tag
/// `close` after it, for at most `fuel` rounds.
pub open spec fn strip_elements(s: Seq<char>, open: Seq<char>, close: Seq<char>, fuel: nat) -> Seq<char>
    decreases fuel,
{
    if fuel == 0 {
        s
    } else {
        let l = lower(s);
        match first_from(l, open, 0) {
            Some(a) => match first_from(l, close, a) {
                Some(b) => strip_elements(
                    splice(s, a, b + close.len(), Seq::empty()),
                    open,
                    close,
                    (fuel - 1) as nat,
                ),
                None => s,
            },
            None => s,
        }
    }
}

/// `s` without the elements of tag `tag`, content included.
pub open spec fn without_elements(s: Seq<char>, tag: Seq<char>) -> Seq<char> {
    strip_elements(s, "<"@ + tag, "</"@ + tag + ">"@, s.len() + 1)
}

fn open_of(tag: &str, tail: &str) -> (r: Vec<char>)
    ensures
        r@ == "<"@ + tag@ + tail@,
{
    let mut v = chars_of("<");
    let mut t = chars_of(tag);
    let mut e = chars_of(tail);
    v.append(&mut t);
    v.append(&mut e);
    v
}

fn close_of(tag: &str) -> (r: Vec<char>)
    ensures
        r@ == "</"@ + tag@ + ">"@,
{
    let mut v = chars_of("</");
    let mut t = chars_of(tag);
    let mut e = chars_of(">");
    v.append(&mut t);
    v.append(&mut e);
    v
}

/// Removes each part from `open` to the first `close` after it, matching
/// without regard to ASCII case, as long as a closing `close` follows.
pub fn remove_enclosed(html: &Vec<char>, open: &Vec<char>, close: &Vec<char>) -> (r: Vec<char>)
    ensures
        r@ == strip_elements(html@, open@, close@, html@.len() + 1),
{
    let mut s: Vec<char> = Vec::new();
    let mut k: usize = 0;
    while k < html.len()
        invariant
            k <= html.len(),
            s@ == html@.subrange(0, k as int),
        decreases html.len() - k,
    {
        s.push(html[k]);
        k += 1;
        assert(s@ =~= html@.subrange(0, k as int));
    }
    assert(html@.subrange(0, html.len() as int) =~= html@);
    let mut fuel: u128 = html.len() as u128 + 1;
    while fuel > 0
        invariant
            strip_elements(s@, open@, close@, fuel as nat) == strip_elements(
                html@,
                open@,
                close@,
                html@.len() + 1,
            ),
        decreases fuel,
    {
        let l = to_lower(&s);
        match find_first(&l, open, 0) {
            Some(a) => match find_first(&l, close, a) {
                Some(b) => {
                    let empty: Vec<char> = Vec::new();
                    let n: usize = l.len();
                    assert(b + close@.len() <= n);
                    s = splice_exec(&s, a, b + close.len(), &empty);
                    fuel -= 1;
                },
                None => {
                    return s;
                },
            },
            None => {
                return s;
            },
        }
    }
    s
}

/// Removes the elements of tag `tag`, content included.
pub fn remove_tag_content(html: &Vec<char>, tag: &str) -> (r: Vec<char>)
    ensures
        r@ == without_elements(html@, tag@),
{
    let open = open_of(tag, "");
    proof {
        reveal_strlit("");
    }
    assert(open@ =~= "<"@ + tag@);
    let close = close_of(tag);
    remove_enclosed(html, &open, &close)
}

/// Replaces each opening tag `open ... >` by `rep`, for at most `fuel` rounds.
pub open spec fn rewrite_open_tags(s: Seq<char>, open: Seq<char>, rep: Seq<char>, fuel: nat) -> Seq<char>
    decreases fuel,
{
    if fuel == 0 {
        s
    } else {
        match first_from(lower(s), open, 0) {
            Some(a) => match first_from(s, ">"@, a) {
                Some(b) => rewrite_open_tags(splice(s, a, b + 1, rep), open, rep, (fuel - 1) as nat),
                None => s,
            },
            None => s,
        }
    }
}

/// Opening tags of `tag` that carry attributes replaced by `rep`; closing
/// tags removed.
pub open spec fn rewritten_tags(s: Seq<char>, tag: Seq<char>, rep: Seq<char>) -> Seq<char> {
    replace_all(
        rewrite_open_tags(s, "<"@ + tag + " "@, rep, s.len() + 1),
        "</"@ + tag + ">"@,
        Seq::empty(),
    )
}

/// Replaces opening tags of `tag` with attributes by `replacement`, and
/// removes its closing tags.
pub fn replace_tag_simple(html: &Vec<char>, tag: &str, replacement: &str) -> (r: Vec<char>)
    ensures
        r@ == rewritten_tags(html@, tag@, replacement@),
{
    let open = open_of(tag, " ");
    let close = close_of(tag);
    let rep = chars_of(replacement);
    let gt = chars_of(">");
    let mut s: Vec<char> = Vec::new();
    let mut k: usize = 0;
    while k < html.len()
        invariant
            k <= html.len(),
            s@ == html@.subrange(0, k as int),
        decreases html.len() - k,
    {
        s.push(html[k]);
        k += 1;
        assert(s@ =~= html@.subrange(0, k as int));
    }
    assert(html@.subrange(0, html.len() as int) =~= html@);
    let ghost full = rewrite_open_tags(html@, open@, rep@, html@.len() + 1);
    let mut fuel: u128 = html.len() as u128 + 1;
    proof {
        reveal_strlit(">");
    }
    while fuel > 0
        invariant
            gt@ == ">"@,
            gt@.len() == 1,
            rewrite_open_tags(s@, open@, rep@, fuel as nat) == full,
        ensures
            s@ == full,
        decreases fuel,
    {
        let l = to_lower(&s);
        match find_first(&l, &open, 0) {
            Some(a) => match find_first(&s, &gt, a) {
                Some(b) => {
                    let n: usize = s.len();
                    assert(b + 1 <= n);
                    s = splice_exec(&s, a, b + 1, &rep);
                    fuel -= 1;
                },
                None => {
                    assert(rewrite_open_tags(s@, open@, rep@, fuel as nat) == s@);
                    break;
                },
            },
            None => {
                assert(rewrite_open_tags(s@, open@, rep@, fuel as nat) == s@);
                break;
            },
        }
    }
    assert(s@ == full);
    assert(full == rewrite_open_tags(html@, "<"@ + tag@ + " "@, replacement@, html@.len() + 1));
    let empty: Vec<char> = Vec::new();
    assert(empty@ =~= Seq::<char>::empty());
    replace_exec(&s, &close, &empty)
}

/// One round of link conversion: the first `<a href="URL">TEXT</a>` becomes
/// `[TEXT](URL)`. `None` when there is no such link to convert.
pub open spec fn link_round(s: Seq<char>) -> Option<Seq<char>> {
    let l = lower(s);
    match first_from(l, "<a "@, 0) {
        None => None,
        Some(a) => match first_from(l, "href="@, a) {
            None => None,
            Some(h) => {
                let hp = h + 5;
                if hp < s.len() && (s[hp] == '"' || s[hp] == '\'') {
                    let us = hp + 1;
                    match first_from(s, seq![s[hp]], us) {
                        None => None,
                        Some(ue) => match first_from(s, ">"@, a) {
                            None => None,
                            Some(te) => match first_from(l, "</a>"@, te + 1) {
                                None => None,
                                Some(c) => Some(
                                    splice(
                                        s,
                                        a,
                                        c + 4,
                                        "["@ + trim(s.subrange(te + 1, c)) + "]("@ + s.subrange(
                                            us,
                                            ue,
                                        ) + ")"@,
                                    ),
                                ),
                            },
                        },
                    }
                } else {
                    None
                }
            },
        },
    }
}

/// Link conversion for at most `fuel` rounds.
pub open spec fn links_converted(s: Seq<char>, fuel: nat) -> Seq<char>
    decreases fuel,
{
    if fuel == 0 {
        s
    } else {
        match link_round(s) {
            Some(t) => links_converted(t, (fuel - 1) as nat),
            None => s,
        }
    }
}

fn link_round_exec(s: &Vec<char>) -> (r: Option<Vec<char>>)
    ensures
        match link_round(s@) {
            Some(t) => r is Some && r->0@ == t,
            None => r is None,
        },
{
    let l = to_lower(s);
    let a = match find_first(&l, &chars_of("<a "), 0) {
        Some(a) => a,
        None => {
            return None;
        },
    };
    let h = match find_first(&l, &chars_of("href="), a) {
        Some(h) => h,
        None => {
            return None;
        },
    };
    proof {
        reveal_strlit("href=");
    }
    if h > s.len() || s.len() - h <= 5 {
        return None;
    }
    let hp = h + 5;
    let q = s[hp];
    if !(q == '"' || q == '\'') {
        return None;
    }
    let mut qv: Vec<char> = Vec::new();
    qv.push(q);
    assert(qv@ =~= seq![s@[hp as int]]);
    let ue = match find_first(s, &qv, hp + 1) {
        Some(x) => x,
        None => {
            return None;
        },
    };
    let te = match find_first(s, &chars_of(">"), a) {
        Some(x) => x,
        None => {
            return None;
        },
    };
    proof {
        reveal_strlit(">");
        reveal_strlit("</a>");
    }
    let c = match find_first(&l, &chars_of("</a>"), te + 1) {
        Some(x) => x,
        None => {
            return None;
        },
    };
    let text = trim_exec(&slice_exec(s, te + 1, c));
    let url = slice_exec(s, hp + 1, ue);
    let mut md = chars_of("[");
    let mut t = text;
    md.append(&mut t);
    let mut mid = chars_of("](");
    md.append(&mut mid);
    let mut u = url;
    md.append(&mut u);
    let mut end = chars_of(")");
    md.append(&mut end);
    Some(splice_exec(s, a, c + 4, &md))
}

/// Converts `<a href="URL">TEXT</a>` links to `[TEXT](URL)`, first to last;
/// it stops at the first link whose address is not quoted.
pub fn convert_links(html: &Vec<char>) -> (r: Vec<char>)
    ensures
        r@ == links_converted(html@, html@.len() + 1),
{
    let mut s: Vec<char> = Vec::new();
    let mut k: usize = 0;
    while k < html.len()
        invariant
            k <= html.len(),
            s@ == html@.subrange(0, k as int),
        decreases html.len() - k,
    {
        s.push(html[k]);
        k += 1;
        assert(s@ =~= html@.subrange(0, k as int));
    }
    assert(html@.subrange(0, html.len() as int) =~= html@);
    let mut fuel: u128 = html.len() as u128 + 1;
    while fuel > 0
        invariant
            links_converted(s@, fuel as nat) == links_converted(html@, html@.len() + 1),
        decreases fuel,
    {
        match link_round_exec(&s) {
            Some(t) => {
                s = t;
                fuel -= 1;
            },
            None => {
                return s;
            },
        }
    }
    s
}

/// `s` without anything from a `<` to the next `>`; `in_tag` says whether
/// such a part is open at the start.
pub open spec fn untagged(s: Seq<char>, in_tag: bool) -> Seq<char>
    decreases s.len(),
{
    if s.len() == 0 {
        s
    } else {
        let rest = s.subrange(1, s.len() as int);
        if s[0] == '<' {
            untagged(rest, true)
        } else if s[0] == '>' {
            untagged(rest, false)
        } else if !in_tag {
            seq![s[0]] + untagged(rest, in_tag)
        } else {
            untagged(rest, in_tag)
        }
    }
}

/// Removes every remaining tag, keeping the text between tags.
pub fn remove_all_tags(html: &Vec<char>) -> (r: Vec<char>)
    ensures
        r@ == untagged(html@, false),
{
    let mut out: Vec<char> = Vec::new();
    let mut in_tag = false;
    let mut i: usize = 0;
    assert(html@.subrange(0, html.len() as int) =~= html@);
    while i < html.len()
        invariant
            i <= html.len(),
            out@ + untagged(html@.subrange(i as int, html.len() as int), in_tag) == untagged(
                html@,
                false,
            ),
        decreases html.len() - i,
    {
        let ghost rest = html@.subrange(i as int, html.len() as int);
        assert(rest.subrange(1, rest.len() as int) =~= html@.subrange(i + 1, html.len() as int));
        let c = html[i];
        if c == '<' {
            in_tag = true;
        } else if c == '>' {
            in_tag = false;
        } else if !in_tag {
            let ghost before = out@;
            out.push(c);
            assert(out@ + untagged(html@.subrange(i + 1, html.len() as int), in_tag) =~= before
                + untagged(rest, in_tag));
        }
        i += 1;
    }
    assert(html@.subrange(html.len() as int, html.len() as int) =~= Seq::<char>::empty());
    assert(out@ + Seq::<char>::empty() =~= out@);
    out
}

/// The lines of `s`, split at each line feed.
pub open spec fn split_lines(s: Seq<char>) -> Seq<Seq<char>>
    decreases s.len(),
{
    if s.len() == 0 {
        seq![Seq::empty()]
    } else {
        let init = split_lines(s.drop_last());
        if s.last() == '\n' {
            init.push(Seq::empty())
        } else {
            init.update(init.len() - 1, init.last().push(s.last()))
        }
    }
}

proof fn lemma_split_lines_nonempty(s: Seq<char>)
    ensures
        split_lines(s).len() > 0,
    decreases s.len(),
{
    if s.len() > 0 {
        lemma_split_lines_nonempty(s.drop_last());
    }
}

/// Pieces joined with a separator between each two.
pub open spec fn join(ls: Seq<Seq<char>>, sep: Seq<char>) -> Seq<char>
    decreases ls.len(),
{
    if ls.len() == 0 {
        Seq::empty()
    } else if ls.len() == 1 {
        ls[0]
    } else {
        join(ls.drop_last(), sep) + sep + ls.last()
    }
}

/// The non-blank lines of `s`, trimmed, separated by blank lines.
pub open spec fn tidy_lines(s: Seq<char>) -> Seq<char> {
    join(
        split_lines(s).map_values(|l: Seq<char>| trim(l)).filter(|l: Seq<char>| l.len() > 0),
        "\n\n"@,
    )
}

fn tidy_lines_exec(s: &Vec<char>) -> (r: Vec<char>)
    ensures
        r@ == tidy_lines(s@),
{
    let mut lines: Vec<Vec<char>> = Vec::new();
    let mut cur: Vec<char> = Vec::new();
    let mut i: usize = 0;
    assert(s@.subrange(0, 0) =~= Seq::<char>::empty());
    while i < s.len()
        invariant
            i <= s.len(),
            lines@.map_values(|v: Vec<char>| v@).push(cur@) == split_lines(s@.subrange(0, i as int)),
        decreases s.len() - i,
    {
        let ghost pre = s@.subrange(0, i as int);
        assert(s@.subrange(0, i + 1).drop_last() =~= pre);
        proof {
            lemma_split_lines_nonempty(pre);
        }
        let c = s[i];
        if c == '\n' {
            let done = cur;
            lines.push(done);
            cur = Vec::new();
            assert(lines@.map_values(|v: Vec<char>| v@).push(cur@) =~= split_lines(pre).push(
                Seq::empty(),
            ));
        } else {
            let ghost before = lines@.map_values(|v: Vec<char>| v@);
            cur.push(c);
            assert(lines@.map_values(|v: Vec<char>| v@).push(cur@) =~= split_lines(pre).update(
                split_lines(pre).len() - 1,
                split_lines(pre).last().push(c),
            ));
        }
        i += 1;
    }
    assert(s@.subrange(0, s.len() as int) =~= s@);
    lines.push(cur);
    let ghost all = lines@.map_values(|v: Vec<char>| v@);
    assert(all == split_lines(s@));
    let ghost trimmed = all.map_values(|l: Seq<char>| trim(l));
    let ghost pred = |l: Seq<char>| l.len() > 0;
    let mut out: Vec<char> = Vec::new();
    let mut count: usize = 0;
    let mut j: usize = 0;
    assert(trimmed.subrange(0, 0).filter(pred) =~= Seq::<Seq<char>>::empty()) by {
        reveal(Seq::filter);
    }
    while j < lines.len()
        invariant
            j <= lines.len(),
            all == lines@.map_values(|v: Vec<char>| v@),
            trimmed == all.map_values(|l: Seq<char>| trim(l)),
            pred == (|l: Seq<char>| l.len() > 0),
            count == trimmed.subrange(0, j as int).filter(pred).len(),
            out@ == join(trimmed.subrange(0, j as int).filter(pred), "\n\n"@),
        decreases lines.len() - j,
    {
        proof {
            crate::store::lemma_filter_step(trimmed, j as int, pred);
        }
        let t = trim_exec(&lines[j]);
        assert(t@ == trimmed[j as int]);
        if t.len() > 0 {
            let ghost kept = trimmed.subrange(0, j as int).filter(pred);
            if count > 0 {
                let mut sep = chars_of("\n\n");
                out.append(&mut sep);
            }
            let mut tt = t;
            out.append(&mut tt);
            proof {
                let nk = kept.push(trimmed[j as int]);
                assert(nk.drop_last() =~= kept);
                if kept.len() == 0 {
                    assert(out@ =~= join(nk, "\n\n"@));
                }
            }
            if count < usize::MAX {
                count += 1;
            }
        }
        j += 1;
    }
    assert(trimmed.subrange(0, lines.len() as int) =~= trimmed);
    out
}

fn rep(s: &Vec<char>, p: &str, r: &str) -> (out: Vec<char>)
    ensures
        out@ == replace_all(s@, p@, r@),
{
    replace_exec(s, &chars_of(p), &chars_of(r))
}

/// Page markdown, step one: scripts, styles and page furniture removed.
pub open spec fn md_stripped(h: Seq<char>) -> Seq<char> {
    without_elements(
        without_elements(
            without_elements(
                without_elements(without_elements(h, "script"@), "style"@),
                "nav"@,
            ),
            "footer"@,
        ),
        "header"@,
    )
}

/// Page markdown, step two: headings.
pub open spec fn md_headings(s: Seq<char>) -> Seq<char> {
    let a = replace_all(replace_all(s, "<h1>"@, "\n# "@), "</h1>"@, "\n"@);
    let b = replace_all(replace_all(a, "<h2>"@, "\n## "@), "</h2>"@, "\n"@);
    let c = replace_all(replace_all(b, "<h3>"@, "\n### "@), "</h3>"@, "\n"@);
    let d = replace_all(replace_all(c, "<h4>"@, "\n#### "@), "</h4>"@, "\n"@);
    rewritten_tags(
        rewritten_tags(rewritten_tags(rewritten_tags(d, "h1"@, "# "@), "h2"@, "## "@), "h3"@, "### "@),
        "h4"@,
        "#### "@,
    )
}

/// Page markdown, step three: paragraphs, breaks and lists.
pub open spec fn md_blocks(s: Seq<char>) -> Seq<char> {
    let a = replace_all(replace_all(s, "<p>"@, "\n\n"@), "</p>"@, "\n"@);
    let b = rewritten_tags(a, "p"@, "\n\n"@);
    let c = replace_all(
        replace_all(replace_all(b, "<br>"@, "\n"@), "<br/>"@, "\n"@),
        "<br />"@,
        "\n"@,
    );
    let d = replace_all(replace_all(c, "<li>"@, "\n- "@), "</li>"@, ""@);
    let e = rewritten_tags(d, "li"@, "\n- "@);
    replace_all(
        replace_all(
            replace_all(replace_all(e, "<ul>"@, "\n"@), "</ul>"@, "\n"@),
            "<ol>"@,
            "\n"@,
        ),
        "</ol>"@,
        "\n"@,
    )
}

/// Page markdown, step four: emphasis and code.
pub open spec fn md_inline(s: Seq<char>) -> Seq<char> {
    let a = replace_all(replace_all(s, "<strong>"@, "**"@), "</strong>"@, "**"@);
    let b = replace_all(replace_all(a, "<b>"@, "**"@), "</b>"@, "**"@);
    let c = replace_all(replace_all(b, "<em>"@, "*"@), "</em>"@, "*"@);
    let d = replace_all(replace_all(c, "<i>"@, "*"@), "</i>"@, "*"@);
    let e = replace_all(replace_all(d, "<code>"@, "`"@), "</code>"@, "`"@);
    replace_all(replace_all(e, "<pre>"@, "\n```\n"@), "</pre>"@, "\n```\n"@)
}

/// Page markdown, step five: common character entities decoded.
pub open spec fn md_entities(s: Seq<char>) -> Seq<char> {
    let a = replace_all(replace_all(s, "&nbsp;"@, " "@), "&amp;"@, "&"@);
    let b = replace_all(replace_all(a, "&lt;"@, "<"@), "&gt;"@, ">"@);
    let c = replace_all(replace_all(b, "&quot;"@, "\""@), "&#39;"@, "'"@);
    replace_all(c, "&apos;"@, "'"@)
}

/// The markdown rendering of a page.
pub open spec fn markdown_of(html: Seq<char>) -> Seq<char> {
    let s = md_inline(md_blocks(md_headings(md_stripped(html))));
    let t = untagged(links_converted(s, s.len() + 1), false);
    tidy_lines(md_entities(t))
}

/// Renders a page as markdown: scripts, styles, navigation, headers and
/// footers go; headings, paragraphs, lists, emphasis, code and links are
/// rewritten; other tags go; entities are decoded; blank lines collapse.
pub fn html_to_markdown(html: &str) -> (r: String)
    ensures
        r@ == markdown_of(html@),
{
    let h = chars_of(html);
    let s = remove_tag_content(&h, "script");
    let s = remove_tag_content(&s, "style");
    let s = remove_tag_content(&s, "nav");
    let s = remove_tag_content(&s, "footer");
    let s = remove_tag_content(&s, "header");
    let s = rep(&s, "<h1>", "\n# ");
    let s = rep(&s, "</h1>", "\n");
    let s = rep(&s, "<h2>", "\n## ");
    let s = rep(&s, "</h2>", "\n");
    let s = rep(&s, "<h3>", "\n### ");
    let s = rep(&s, "</h3>", "\n");
    let s = rep(&s, "<h4>", "\n#### ");
    let s = rep(&s, "</h4>", "\n");
    let s = replace_tag_simple(&s, "h1", "# ");
    let s = replace_tag_simple(&s, "h2", "## ");
    let s = replace_tag_simple(&s, "h3", "### ");
    let s = replace_tag_simple(&s, "h4", "#### ");
    let s = rep(&s, "<p>", "\n\n");
    let s = rep(&s, "</p>", "\n");
    let s = replace_tag_simple(&s, "p", "\n\n");
    let s = rep(&s, "<br>", "\n");
    let s = rep(&s, "<br/>", "\n");
    let s = rep(&s, "<br />", "\n");
    let s = rep(&s, "<li>", "\n- ");
    let s = rep(&s, "</li>", "");
    let s = replace_tag_simple(&s, "li", "\n- ");
    let s = rep(&s, "<ul>", "\n");
    let s = rep(&s, "</ul>", "\n");
    let s = rep(&s, "<ol>", "\n");
    let s = rep(&s, "</ol>", "\n");
    let s = rep(&s, "<strong>", "**");
    let s = rep(&s, "</strong>", "**");
    let s = rep(&s, "<b>", "**");
    let s = rep(&s, "</b>", "**");
    let s = rep(&s, "<em>", "*");
    let s = rep(&s, "</em>", "*");
    let s = rep(&s, "<i>", "*");
    let s = rep(&s, "</i>", "*");
    let s = rep(&s, "<code>", "`");
    let s = rep(&s, "</code>", "`");
    let s = rep(&s, "<pre>", "\n```\n");
    let s = rep(&s, "</pre>", "\n```\n");
    let s = convert_links(&s);
    let s = remove_all_tags(&s);
    let s = rep(&s, "&nbsp;", " ");
    let s = rep(&s, "&amp;", "&");
    let s = rep(&s, "&lt;", "<");
    let s = rep(&s, "&gt;", ">");
    let s = rep(&s, "&quot;", "\"");
    let s = rep(&s, "&#39;", "'");
    let s = rep(&s, "&apos;", "'");
    let s = tidy_lines_exec(&s);
    string_of(&s)
}

} // verus!
