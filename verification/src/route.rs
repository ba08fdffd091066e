//! Collapsing concrete request paths to templates, so that traffic aggregates.

use vstd::prelude::*;

use crate::text::{chars_of, same_text};

verus! {

/// Where `c` first stands in `s`, or the length of `s` where it does not.
pub open spec fn first_at(s: Seq<char>, c: char) -> int
    decreases s.len(),
{
    if s.len() == 0 || s[0] == c {
        0
    } else {
        1 + first_at(s.drop_first(), c)
    }
}

/// What stands before the query string of a path.
pub open spec fn before_query(path: Seq<char>) -> Seq<char> {
    path.take(first_at(path, '?'))
}

/// A text without `tail`, where it ends in it.
pub open spec fn without_tail(s: Seq<char>, tail: Seq<char>) -> Seq<char> {
    if tail.is_suffix_of(s) {
        s.take(s.len() - tail.len())
    } else {
        s
    }
}

/// The non-empty pieces of a path between its slashes.
pub open spec fn segments(s: Seq<char>) -> Seq<Seq<char>>
    decreases s.len(),
{
    proof {
        lemma_first_at(s, '/');
    }
    let end = first_at(s, '/');
    let rest = if end < s.len() {
        segments(s.skip(end + 1))
    } else {
        Seq::empty()
    };
    if end == 0 {
        rest
    } else {
        seq![s.take(end)] + rest
    }
}

/// The segments, each behind a slash.
pub open spec fn rooted(segs: Seq<Seq<char>>) -> Seq<char>
    decreases segs.len(),
{
    if segs.len() == 0 {
        Seq::empty()
    } else {
        rooted(segs.drop_last()) + "/"@ + segs.last()
    }
}

/// The rule table: the template that a path with these segments falls under.
pub open spec fn template_of(segs: Seq<Seq<char>>) -> Seq<char> {
    let n = segs.len();
    if n >= 3 && segs[0] == "r"@ && segs[2] == "comments"@ {
        "/r/:sub/comments/:id"@
    } else if n >= 3 && segs[0] == "r"@ && segs[2] == "wiki"@ {
        "/r/:sub/wiki/:page"@
    } else if n >= 3 && segs[0] == "r"@ && segs[2] == "about"@ {
        "/r/:sub/about"@
    } else if n == 3 && segs[0] == "r"@ && segs[2] == "search"@ {
        "/r/:sub/search"@
    } else if n == 3 && segs[0] == "r"@ {
        "/r/:sub/"@ + segs[2]
    } else if n == 2 && segs[0] == "r"@ {
        "/r/:sub"@
    } else if n >= 1 && segs[0] == "comments"@ {
        "/comments/:id"@
    } else if n == 3 && segs[0] == "user"@ && segs[2] == "about"@ {
        "/user/:name/about"@
    } else if n == 3 && segs[0] == "user"@ {
        "/user/:name/"@ + segs[2]
    } else if n == 2 && segs[0] == "user"@ {
        "/user/:name"@
    } else if n == 1 && segs[0] == "search"@ {
        "/search"@
    } else if n == 2 && segs[0] == "subreddits"@ && segs[1] == "search"@ {
        "/subreddits/search"@
    } else if n == 0 {
        "/"@
    } else {
        rooted(segs)
    }
}

/// The segments of an upstream path that its template goes by: those of the
/// path without its query string and without a `.json` suffix.
pub open spec fn upstream_segments(path: Seq<char>) -> Seq<Seq<char>> {
    segments(without_tail(before_query(path), ".json"@))
}

/// The template of an upstream path.
pub open spec fn upstream_template(path: Seq<char>) -> Seq<char> {
    template_of(upstream_segments(path))
}

/// `first_at` is a position of the text or its end, holds the character where
/// it is a position, and nothing before it does.
pub proof fn lemma_first_at(s: Seq<char>, c: char)
    ensures
        0 <= first_at(s, c) <= s.len(),
        first_at(s, c) < s.len() ==> s[first_at(s, c)] == c,
        forall|i: int| 0 <= i < first_at(s, c) ==> s[i] != c,
    decreases s.len(),
{
    if s.len() > 0 && s[0] != c {
        lemma_first_at(s.drop_first(), c);
        assert forall|i: int| 0 <= i < first_at(s, c) implies s[i] != c by {
            if i > 0 {
                assert(s[i] == s.drop_first()[i - 1]);
            }
        }
    }
}

/// `first_at` is the only position that `lemma_first_at` describes.
proof fn lemma_first_at_is(s: Seq<char>, c: char, at: int)
    requires
        0 <= at <= s.len(),
        at < s.len() ==> s[at] == c,
        forall|i: int| 0 <= i < at ==> s[i] != c,
    ensures
        first_at(s, c) == at,
{
    lemma_first_at(s, c);
}

/// Where `c` first stands in `chars` from `from` on, or the length.
fn find_from(chars: &Vec<char>, from: usize, c: char) -> (at: usize)
    requires
        from <= chars.len(),
    ensures
        from <= at <= chars.len(),
        at - from == first_at(chars@.skip(from as int), c),
{
    let mut i: usize = from;
    while i < chars.len() && chars[i] != c
        invariant
            from <= i <= chars.len(),
            forall|k: int| from <= k < i ==> chars@[k] != c,
        decreases chars.len() - i,
    {
        i = i + 1;
    }
    proof {
        lemma_first_at_is(chars@.skip(from as int), c, i - from);
    }
    i
}

/// The views of a list of texts.
pub open spec fn texts(list: Seq<&str>) -> Seq<Seq<char>> {
    list.map_values(|s: &str| s@)
}

/// The non-empty pieces of the first `end` characters of `path`.
fn split_segments<'a>(path: &'a str, chars: &Vec<char>, end: usize) -> (segs: Vec<&'a str>)
    requires
        chars@ == path@,
        end <= chars.len(),
    ensures
        texts(segs@) == segments(path@.take(end as int)),
{
    let bare: Vec<char> = chars_of(path.substring_char(0, end));
    let mut segs: Vec<&'a str> = Vec::new();
    let mut start: usize = 0;
    assert(texts(segs@) + segments(bare@.skip(0)) =~= segments(bare@)) by {
        assert(bare@.skip(0) =~= bare@);
    }
    loop
        invariant_except_break
            start <= bare.len(),
            texts(segs@) + segments(bare@.skip(start as int)) == segments(bare@),
        invariant
            bare@ == path@.take(end as int),
            end <= path@.len(),
        ensures
            texts(segs@) == segments(bare@),
        decreases bare.len() - start,
    {
        let at: usize = find_from(&bare, start, '/');
        let ghost rest = bare@.skip(start as int);
        let ghost before = texts(segs@);
        proof {
            lemma_first_at(rest, '/');
            if at < bare.len() {
                assert(rest.skip(at - start + 1) =~= bare@.skip(at + 1));
            }
        }
        if start < at {
            segs.push(path.substring_char(start, at));
            assert(path@.subrange(start as int, at as int) =~= rest.take(at - start));
            assert(texts(segs@) =~= before.push(rest.take(at - start)));
        }
        if at >= bare.len() {
            assert(texts(segs@) =~= before + segments(rest));
            break;
        }
        assert(texts(segs@) + segments(rest.skip(at - start + 1)) =~= before + segments(rest));
        start = at + 1;
    }
    segs
}

/// Whether the first `end` characters of `chars` end in `tail`.
fn ends_in(chars: &Vec<char>, end: usize, tail: &Vec<char>) -> (found: bool)
    requires
        end <= chars.len(),
    ensures
        found == tail@.is_suffix_of(chars@.take(end as int)),
{
    if end < tail.len() {
        return false;
    }
    let from: usize = end - tail.len();
    let ghost whole = chars@.take(end as int);
    let mut i: usize = 0;
    while i < tail.len()
        invariant
            i <= tail.len(),
            from + tail.len() == end,
            end <= chars.len(),
            whole == chars@.take(end as int),
            forall|k: int| 0 <= k < i ==> chars@[from + k] == tail@[k],
        decreases tail.len() - i,
    {
        if chars[from + i] != tail[i] {
            assert(whole.subrange(from as int, end as int)[i as int] != tail@[i as int]);
            return false;
        }
        i = i + 1;
    }
    assert(whole.subrange(from as int, end as int) =~= tail@);
    true
}

/// The views of segments, the way the rule table indexes them.
proof fn lemma_texts(segs: Seq<&str>)
    ensures
        texts(segs).len() == segs.len(),
        forall|i: int| 0 <= i < segs.len() ==> #[trigger] texts(segs)[i] == segs[i]@,
{
}

/// Puts a slash before each segment.
fn root_segments(segs: &Vec<&str>) -> (path: String)
    ensures
        path@ == rooted(texts(segs@)),
{
    let mut path: String = String::new();
    let mut i: usize = 0;
    while i < segs.len()
        invariant
            i <= segs.len(),
            path@ == rooted(texts(segs@).take(i as int)),
        decreases segs.len() - i,
    {
        path.append("/");
        path.append(segs[i]);
        assert(texts(segs@).take(i + 1).drop_last() =~= texts(segs@).take(i as int));
        i = i + 1;
    }
    assert(texts(segs@).take(i as int) =~= texts(segs@));
    path
}

/// Applies the rule table to the segments of a path.
pub fn template(segs: &Vec<&str>) -> (route: String)
    ensures
        route@ == template_of(texts(segs@)),
{
    proof {
        lemma_texts(segs@);
    }
    let n: usize = segs.len();
    if n == 0 {
        return "/".to_owned();
    }
    if same_text(segs[0], "r") && n >= 3 {
        if same_text(segs[2], "comments") {
            return "/r/:sub/comments/:id".to_owned();
        }
        if same_text(segs[2], "wiki") {
            return "/r/:sub/wiki/:page".to_owned();
        }
        if same_text(segs[2], "about") {
            return "/r/:sub/about".to_owned();
        }
        if n == 3 && same_text(segs[2], "search") {
            return "/r/:sub/search".to_owned();
        }
        if n == 3 {
            return "/r/:sub/".to_owned().concat(segs[2]);
        }
    }
    if same_text(segs[0], "r") && n == 2 {
        return "/r/:sub".to_owned();
    }
    if same_text(segs[0], "comments") {
        return "/comments/:id".to_owned();
    }
    if same_text(segs[0], "user") && n == 3 {
        if same_text(segs[2], "about") {
            return "/user/:name/about".to_owned();
        }
        return "/user/:name/".to_owned().concat(segs[2]);
    }
    if same_text(segs[0], "user") && n == 2 {
        return "/user/:name".to_owned();
    }
    if same_text(segs[0], "search") && n == 1 {
        return "/search".to_owned();
    }
    if n == 2 && same_text(segs[0], "subreddits") && same_text(segs[1], "search") {
        return "/subreddits/search".to_owned();
    }
    root_segments(segs)
}

/// Collapses a concrete upstream path to a template, so that the thousands of
/// distinct comment threads aggregate into one `/comments/:id` row.
pub fn normalize_upstream(path: &str) -> (route: String)
    ensures
        route@ == upstream_template(path@),
{
    let chars: Vec<char> = chars_of(path);
    let query: usize = find_from(&chars, 0, '?');
    let suffix: Vec<char> = chars_of(".json");
    proof {
        assert(chars@.skip(0) =~= chars@);
    }
    let mut end: usize = query;
    if ends_in(&chars, query, &suffix) {
        end = query - suffix.len();
        assert(chars@.take(query as int).take(end as int) =~= chars@.take(end as int));
    }
    let segs: Vec<&str> = split_segments(path, &chars, end);
    template(&segs)
}

/// The name that traffic goes under: the route in scope, or `-` outside a
/// request.
pub open spec fn route_name(scope: Option<String>) -> Seq<char> {
    match scope {
        Some(name) => name@,
        None => "-"@,
    }
}

/// Traffic goes under the name of the route in scope, and outside a request under
/// a dash.
pub proof fn lemma_route_name(name: String)
    ensures
        route_name(Some(name)) == name@,
        route_name(None) == "-"@,
{
}

/// The route serving the current request, or `-` outside a request.
pub fn current_route(scope: Option<String>) -> (route: String)
    ensures
        route@ == route_name(scope),
        scope matches Some(name) ==> route@ == name@,
        scope is None ==> route@ == "-"@,
{
    match scope {
        Some(name) => name,
        None => "-".to_owned(),
    }
}

/// What stands behind the question mark makes no difference to the template.
pub proof fn lemma_query_is_ignored(path: Seq<char>, query: Seq<char>)
    ensures
        upstream_template(path + seq!['?'] + query) == upstream_template(path),
{
    let full = path + seq!['?'] + query;
    let at = first_at(path, '?');
    lemma_first_at(path, '?');
    assert(full[path.len() as int] == '?');
    assert forall|i: int| 0 <= i < at implies full[i] != '?' by {
        assert(full[i] == path[i]);
    }
    lemma_first_at_is(full, '?', at);
    assert(before_query(full) =~= before_query(path));
}

/// A path and the same path with `.json` behind it fall under one template: in
/// the query string it is ignored with it, and else it is dropped, once.
pub proof fn lemma_json_suffix_is_ignored(path: Seq<char>)
    requires
        path.contains('?') || !".json"@.is_suffix_of(path),
    ensures
        upstream_template(path + ".json"@) == upstream_template(path),
{
    reveal_strlit(".json");
    let full = path + ".json"@;
    let at = first_at(path, '?');
    lemma_first_at(path, '?');
    if path.contains('?') {
        assert forall|i: int| 0 <= i < at implies full[i] != '?' by {
            assert(full[i] == path[i]);
        }
        lemma_first_at_is(full, '?', at);
        assert(before_query(full) =~= before_query(path));
    } else {
        assert(at == path.len()) by {
            if at < path.len() {
                assert(path.contains(path[at]));
            }
        }
        assert forall|i: int| 0 <= i < full.len() implies full[i] != '?' by {
            if i >= path.len() {
                assert(full[i] == ".json"@[i - path.len()]);
            } else {
                assert(full[i] == path[i]);
            }
        }
        lemma_first_at_is(full, '?', full.len() as int);
        assert(before_query(full) =~= full);
        assert(before_query(path) =~= path);
        assert(full.subrange(path.len() as int, full.len() as int) =~= ".json"@);
        assert(full.take(full.len() - ".json"@.len()) =~= path);
    }
}

/// The name of a subreddit or user does not show in the template: where the rule
/// table has a rule for such a path, another name gives the same template.
pub proof fn lemma_names_do_not_show(path: Seq<char>, other: Seq<char>, name: Seq<char>)
    requires
        upstream_segments(path).len() >= 2,
        upstream_segments(other) == upstream_segments(path).update(1, name),
        ({
            let segs = upstream_segments(path);
            ||| segs[0] == "r"@ && (segs.len() <= 3 || segs[2] == "comments"@ || segs[2] == "wiki"@
                || segs[2] == "about"@)
            ||| segs[0] == "user"@ && segs.len() <= 3
        }),
    ensures
        upstream_template(other) == upstream_template(path),
{
    reveal_strlit("r");
    reveal_strlit("user");
    reveal_strlit("comments");
    reveal_strlit("subreddits");
    assert("r"@.len() == 1 && "user"@.len() == 4 && "comments"@.len() == 8 && "subreddits"@.len()
        == 10);
}

/// All comment threads aggregate: whatever the thread, and with or without its
/// subreddit, its fetches go under one template.
pub proof fn lemma_comment_threads_aggregate(path: Seq<char>)
    ensures
        upstream_segments(path).len() >= 1 && upstream_segments(path)[0] == "comments"@
            ==> upstream_template(path) == "/comments/:id"@,
        upstream_segments(path).len() >= 3 && upstream_segments(path)[0] == "r"@
            && upstream_segments(path)[2] == "comments"@ ==> upstream_template(path)
            == "/r/:sub/comments/:id"@,
{
    reveal_strlit("comments");
    reveal_strlit("r");
    assert("comments"@.len() != "r"@.len());
}

/// Whether these can be the segments of a path.
pub open spec fn plain(segs: Seq<Seq<char>>) -> bool {
    forall|i: int|
        0 <= i < segs.len() ==> (#[trigger] segs[i]).len() > 0 && !segs[i].contains('/')
            && !segs[i].contains('?')
}

/// The segments of a text without a question mark are not empty and hold neither
/// a slash nor a question mark.
proof fn lemma_segments_plain(s: Seq<char>)
    requires
        !s.contains('?'),
    ensures
        plain(segments(s)),
    decreases s.len(),
{
    lemma_first_at(s, '/');
    let end = first_at(s, '/');
    let head = s.take(end);
    assert(!head.contains('/') && !head.contains('?')) by {
        if head.contains('?') {
            let i = choose|i: int| 0 <= i < head.len() && head[i] == '?';
            assert(s[i] == '?');
        }
    }
    if end < s.len() {
        let rest = s.skip(end + 1);
        assert(!rest.contains('?')) by {
            if rest.contains('?') {
                let i = choose|i: int| 0 <= i < rest.len() && rest[i] == '?';
                assert(s[end + 1 + i] == '?');
            }
        }
        lemma_segments_plain(rest);
        let behind = segments(rest);
        assert forall|i: int| 0 <= i < segments(s).len() implies (#[trigger] segments(s)[i]).len()
            > 0 && !segments(s)[i].contains('/') && !segments(s)[i].contains('?') by {
            if end == 0 {
                assert(segments(s)[i] == behind[i]);
            } else if i > 0 {
                assert(segments(s)[i] == behind[i - 1]);
            }
        }
    }
}

/// A segment behind a slash, before a text that is empty or begins with a slash.
proof fn lemma_segments_step(seg: Seq<char>, rest: Seq<char>)
    requires
        seg.len() > 0,
        !seg.contains('/'),
        rest.len() == 0 || rest[0] == '/',
    ensures
        segments("/"@ + seg + rest) == seq![seg] + segments(rest),
{
    reveal_strlit("/");
    let s = "/"@ + seg + rest;
    assert(s[0] == '/');
    lemma_first_at_is(s, '/', 0);
    let body = s.skip(1);
    assert(body =~= seg + rest);
    assert(segments(s) == segments(body));
    assert forall|i: int| 0 <= i < seg.len() implies body[i] != '/' by {
        assert(seg.contains(seg[i]));
    }
    lemma_first_at_is(body, '/', seg.len() as int);
    assert(body.take(seg.len() as int) =~= seg);
    if rest.len() > 0 {
        lemma_first_at_is(rest, '/', 0);
        assert(body.skip(seg.len() + 1int) =~= rest.skip(1));
        assert(segments(rest) == segments(rest.skip(1)));
    } else {
        lemma_first_at_is(rest, '/', 0);
        assert(segments(rest) =~= Seq::empty());
        assert(segments(body) =~= seq![seg] + segments(rest));
    }
}

/// Segments behind slashes, before more of them.
proof fn lemma_rooted_front(segs: Seq<Seq<char>>)
    requires
        segs.len() > 0,
    ensures
        rooted(segs) == "/"@ + segs[0] + rooted(segs.drop_first()),
    decreases segs.len(),
{
    if segs.len() == 1 {
        assert(segs.drop_last() =~= Seq::empty());
        assert(segs.drop_first() =~= Seq::empty());
        assert(rooted(segs) =~= "/"@ + segs[0] + rooted(segs.drop_first()));
    } else {
        lemma_rooted_front(segs.drop_last());
        assert(segs.drop_last().drop_first() =~= segs.drop_first().drop_last());
        assert(segs.drop_first().last() == segs.last());
        assert(rooted(segs) =~= "/"@ + segs[0] + rooted(segs.drop_first()));
    }
}

/// A text of segments behind slashes has those segments, begins with a slash and
/// holds no question mark.
proof fn lemma_rooted_segments(segs: Seq<Seq<char>>)
    requires
        plain(segs),
    ensures
        segments(rooted(segs)) == segs,
        !rooted(segs).contains('?'),
        segs.len() > 0 ==> rooted(segs).len() > 0 && rooted(segs)[0] == '/',
    decreases segs.len(),
{
    reveal_strlit("/");
    if segs.len() == 0 {
        assert(segments(rooted(segs)) =~= segs);
    } else {
        let rest = segs.drop_first();
        assert forall|i: int| 0 <= i < rest.len() implies (#[trigger] rest[i]).len() > 0
            && !rest[i].contains('/') && !rest[i].contains('?') by {
            assert(rest[i] == segs[i + 1]);
        }
        lemma_rooted_segments(rest);
        lemma_rooted_front(segs);
        lemma_segments_step(segs[0], rooted(rest));
        assert(seq![segs[0]] + rest =~= segs);
        let s = rooted(segs);
        if s.contains('?') {
            let i = choose|i: int| 0 <= i < s.len() && s[i] == '?';
            if 0 < i <= segs[0].len() {
                assert(segs[0][i - 1] == '?');
            } else if i > 0 {
                assert(rooted(rest)[i - 1 - segs[0].len()] == '?');
            }
        }
    }
}

/// Whether a text can be a segment of a path.
spec fn fits(seg: Seq<char>) -> bool {
    seg.len() > 0 && !seg.contains('/') && !seg.contains('?')
}

proof fn lemma_fits(seg: Seq<char>)
    requires
        seg.len() > 0,
        forall|i: int| 0 <= i < seg.len() ==> #[trigger] seg[i] != '/' && seg[i] != '?',
    ensures
        fits(seg),
{
}

/// The names in the templates can be segments of a path.
proof fn lemma_names_fit()
    ensures
        fits("r"@),
        fits("comments"@),
        fits("wiki"@),
        fits("about"@),
        fits("search"@),
        fits("user"@),
        fits("subreddits"@),
        fits(":sub"@),
        fits(":id"@),
        fits(":page"@),
        fits(":name"@),
{
    assert(fits("r"@)) by {
        reveal_strlit("r");
        lemma_fits("r"@);
    }
    assert(fits("comments"@)) by {
        reveal_strlit("comments");
        lemma_fits("comments"@);
    }
    assert(fits("wiki"@)) by {
        reveal_strlit("wiki");
        lemma_fits("wiki"@);
    }
    assert(fits("about"@)) by {
        reveal_strlit("about");
        lemma_fits("about"@);
    }
    assert(fits("search"@)) by {
        reveal_strlit("search");
        lemma_fits("search"@);
    }
    assert(fits("user"@)) by {
        reveal_strlit("user");
        lemma_fits("user"@);
    }
    assert(fits("subreddits"@)) by {
        reveal_strlit("subreddits");
        lemma_fits("subreddits"@);
    }
    assert(fits(":sub"@)) by {
        reveal_strlit(":sub");
        lemma_fits(":sub"@);
    }
    assert(fits(":id"@)) by {
        reveal_strlit(":id");
        lemma_fits(":id"@);
    }
    assert(fits(":page"@)) by {
        reveal_strlit(":page");
        lemma_fits(":page"@);
    }
    assert(fits(":name"@)) by {
        reveal_strlit(":name");
        lemma_fits(":name"@);
    }
}

/// A few segments behind slashes, written out.
proof fn lemma_rooted_few(a: Seq<char>, b: Seq<char>, c: Seq<char>, d: Seq<char>)
    ensures
        rooted(seq![a]) == "/"@ + a,
        rooted(seq![a, b]) == "/"@ + a + "/"@ + b,
        rooted(seq![a, b, c]) == "/"@ + a + "/"@ + b + "/"@ + c,
        rooted(seq![a, b, c, d]) == "/"@ + a + "/"@ + b + "/"@ + c + "/"@ + d,
{
    assert(seq![a].drop_last() =~= Seq::empty());
    assert(rooted(seq![a].drop_last()) =~= Seq::empty());
    assert(rooted(seq![a]) =~= "/"@ + a);
    assert(seq![a, b].drop_last() =~= seq![a]);
    assert(rooted(seq![a, b]) == rooted(seq![a]) + "/"@ + b);
    assert(seq![a, b, c].drop_last() =~= seq![a, b]);
    assert(rooted(seq![a, b, c]) == rooted(seq![a, b]) + "/"@ + c);
    assert(seq![a, b, c, d].drop_last() =~= seq![a, b, c]);
    assert(rooted(seq![a, b, c, d]) == rooted(seq![a, b, c]) + "/"@ + d);
}

/// The segments of the template of a path with these segments.
spec fn template_segments(segs: Seq<Seq<char>>) -> Seq<Seq<char>> {
    let n = segs.len();
    if n >= 3 && segs[0] == "r"@ && segs[2] == "comments"@ {
        seq!["r"@, ":sub"@, "comments"@, ":id"@]
    } else if n >= 3 && segs[0] == "r"@ && segs[2] == "wiki"@ {
        seq!["r"@, ":sub"@, "wiki"@, ":page"@]
    } else if n >= 3 && segs[0] == "r"@ && segs[2] == "about"@ {
        seq!["r"@, ":sub"@, "about"@]
    } else if n == 3 && segs[0] == "r"@ {
        seq!["r"@, ":sub"@, segs[2]]
    } else if n == 2 && segs[0] == "r"@ {
        seq!["r"@, ":sub"@]
    } else if n >= 1 && segs[0] == "comments"@ {
        seq!["comments"@, ":id"@]
    } else if n == 3 && segs[0] == "user"@ {
        seq!["user"@, ":name"@, segs[2]]
    } else if n == 2 && segs[0] == "user"@ {
        seq!["user"@, ":name"@]
    } else {
        segs
    }
}

/// The fixed templates are made of their segments.
proof fn lemma_templates_rooted(seg: Seq<char>)
    ensures
        rooted(seq!["r"@, ":sub"@, "comments"@, ":id"@]) == "/r/:sub/comments/:id"@,
        rooted(seq!["r"@, ":sub"@, "wiki"@, ":page"@]) == "/r/:sub/wiki/:page"@,
        rooted(seq!["r"@, ":sub"@, "about"@]) == "/r/:sub/about"@,
        rooted(seq!["r"@, ":sub"@, "search"@]) == "/r/:sub/search"@,
        rooted(seq!["r"@, ":sub"@, seg]) == "/r/:sub/"@ + seg,
        rooted(seq!["r"@, ":sub"@]) == "/r/:sub"@,
        rooted(seq!["comments"@, ":id"@]) == "/comments/:id"@,
        rooted(seq!["user"@, ":name"@, "about"@]) == "/user/:name/about"@,
        rooted(seq!["user"@, ":name"@, seg]) == "/user/:name/"@ + seg,
        rooted(seq!["user"@, ":name"@]) == "/user/:name"@,
        rooted(seq!["search"@]) == "/search"@,
        rooted(seq!["subreddits"@, "search"@]) == "/subreddits/search"@,
{
    reveal_strlit("/");
    reveal_strlit("r");
    reveal_strlit(":sub");
    lemma_rooted_few("r"@, ":sub"@, "comments"@, ":id"@);
    lemma_rooted_few("r"@, ":sub"@, "wiki"@, ":page"@);
    lemma_rooted_few("r"@, ":sub"@, "about"@, seg);
    lemma_rooted_few("r"@, ":sub"@, "search"@, seg);
    lemma_rooted_few("r"@, ":sub"@, seg, seg);
    lemma_rooted_few("comments"@, ":id"@, seg, seg);
    lemma_rooted_few("user"@, ":name"@, "about"@, seg);
    lemma_rooted_few("user"@, ":name"@, seg, seg);
    lemma_rooted_few("search"@, seg, seg, seg);
    lemma_rooted_few("subreddits"@, "search"@, seg, seg);
    let slash = "/"@;
    assert(slash + "r"@ + slash + ":sub"@ + slash + "comments"@ + slash + ":id"@
        =~= "/r/:sub/comments/:id"@) by {
        reveal_strlit("comments");
        reveal_strlit(":id");
        reveal_strlit("/r/:sub/comments/:id");
    }
    assert(slash + "r"@ + slash + ":sub"@ + slash + "wiki"@ + slash + ":page"@
        =~= "/r/:sub/wiki/:page"@) by {
        reveal_strlit("wiki");
        reveal_strlit(":page");
        reveal_strlit("/r/:sub/wiki/:page");
    }
    assert(slash + "r"@ + slash + ":sub"@ + slash + "about"@ =~= "/r/:sub/about"@) by {
        reveal_strlit("about");
        reveal_strlit("/r/:sub/about");
    }
    assert(slash + "r"@ + slash + ":sub"@ + slash + "search"@ =~= "/r/:sub/search"@) by {
        reveal_strlit("search");
        reveal_strlit("/r/:sub/search");
    }
    assert(slash + "r"@ + slash + ":sub"@ + slash + seg =~= "/r/:sub/"@ + seg) by {
        reveal_strlit("/r/:sub/");
    }
    assert(slash + "r"@ + slash + ":sub"@ =~= "/r/:sub"@) by {
        reveal_strlit("/r/:sub");
    }
    assert(slash + "comments"@ + slash + ":id"@ =~= "/comments/:id"@) by {
        reveal_strlit("comments");
        reveal_strlit(":id");
        reveal_strlit("/comments/:id");
    }
    assert(slash + "user"@ + slash + ":name"@ + slash + "about"@ =~= "/user/:name/about"@) by {
        reveal_strlit("user");
        reveal_strlit(":name");
        reveal_strlit("about");
        reveal_strlit("/user/:name/about");
    }
    assert(slash + "user"@ + slash + ":name"@ + slash + seg =~= "/user/:name/"@ + seg) by {
        reveal_strlit("user");
        reveal_strlit(":name");
        reveal_strlit("/user/:name/");
    }
    assert(slash + "user"@ + slash + ":name"@ =~= "/user/:name"@) by {
        reveal_strlit("user");
        reveal_strlit(":name");
        reveal_strlit("/user/:name");
    }
    assert(slash + "search"@ =~= "/search"@) by {
        reveal_strlit("search");
        reveal_strlit("/search");
    }
    assert(slash + "subreddits"@ + slash + "search"@ =~= "/subreddits/search"@) by {
        reveal_strlit("subreddits");
        reveal_strlit("search");
        reveal_strlit("/subreddits/search");
    }
}

/// The template is made of its segments, which can be those of a path, and is
/// its own template.
proof fn lemma_template_shape(segs: Seq<Seq<char>>)
    requires
        plain(segs),
        segs.len() > 0,
    ensures
        plain(template_segments(segs)),
        template_segments(segs).len() > 0,
        template_of(segs) == rooted(template_segments(segs)),
        template_of(template_segments(segs)) == template_of(segs),
{
    let last = if segs.len() >= 3 {
        segs[2]
    } else {
        segs[0]
    };
    lemma_names_fit();
    lemma_templates_rooted(last);
    reveal_strlit("r");
    reveal_strlit("comments");
    reveal_strlit("user");
    reveal_strlit("search");
    reveal_strlit("subreddits");
    assert("r"@.len() == 1 && "comments"@.len() == 8 && "user"@.len() == 4 && "search"@.len() == 6
        && "subreddits"@.len() == 10);
    let ts = template_segments(segs);
    assert(fits(last));
    assert forall|i: int| 0 <= i < ts.len() implies (#[trigger] ts[i]).len() > 0 && !ts[i].contains(
        '/',
    ) && !ts[i].contains('?') by {
        assert(fits(ts[i]) || ts == segs);
    }
    if segs.len() == 1 && segs[0] == "search"@ {
        assert(segs =~= seq!["search"@]);
    }
    if segs.len() == 2 && segs[0] == "subreddits"@ && segs[1] == "search"@ {
        assert(segs =~= seq!["subreddits"@, "search"@]);
    }
}

/// A template is its own template, unless it ends in `.json`.
pub proof fn lemma_template_is_stable(path: Seq<char>)
    requires
        !".json"@.is_suffix_of(upstream_template(path)),
    ensures
        upstream_template(upstream_template(path)) == upstream_template(path),
{
    let bare = without_tail(before_query(path), ".json"@);
    lemma_first_at(path, '?');
    assert(!bare.contains('?')) by {
        if bare.contains('?') {
            let i = choose|i: int| 0 <= i < bare.len() && bare[i] == '?';
            assert(path[i] == '?');
        }
    }
    lemma_segments_plain(bare);
    let segs = segments(bare);
    let route = upstream_template(path);
    if segs.len() == 0 {
        reveal_strlit("/");
        assert(route =~= seq!['/']);
        lemma_first_at_is(route, '?', 1);
        assert(before_query(route) =~= route);
        lemma_first_at_is(route, '/', 0);
        assert(route.skip(1) =~= Seq::empty());
        assert(segments(route.skip(1)) =~= Seq::empty());
        assert(segments(route) =~= Seq::empty());
    } else {
        lemma_template_shape(segs);
        let ts = template_segments(segs);
        lemma_rooted_segments(ts);
        assert forall|i: int| 0 <= i < route.len() implies route[i] != '?' by {
            assert(route.contains(route[i]));
        }
        lemma_first_at_is(route, '?', route.len() as int);
        assert(before_query(route) =~= route);
    }
}

/// A template is a path without a query string: it begins with a slash and holds
/// no question mark.
pub proof fn lemma_template_is_path(path: Seq<char>)
    ensures
        upstream_template(path).len() > 0,
        upstream_template(path)[0] == '/',
        !upstream_template(path).contains('?'),
{
    let bare = without_tail(before_query(path), ".json"@);
    lemma_first_at(path, '?');
    assert(!bare.contains('?')) by {
        if bare.contains('?') {
            let i = choose|i: int| 0 <= i < bare.len() && bare[i] == '?';
            assert(path[i] == '?');
        }
    }
    lemma_segments_plain(bare);
    let segs = segments(bare);
    if segs.len() == 0 {
        reveal_strlit("/");
        assert(upstream_template(path) =~= seq!['/']);
    } else {
        lemma_template_shape(segs);
        lemma_rooted_segments(template_segments(segs));
    }
}

/// The bare path of one that begins with a segment of no query and goes on, if at
/// all, with a slash.
proof fn lemma_bare_rest(head: Seq<char>, rest: Seq<char>) -> (kept: Seq<char>)
    requires
        !head.contains('?'),
        !".json"@.is_suffix_of(head),
        rest.len() == 0 || rest[0] == '/',
    ensures
        without_tail(before_query(head + rest), ".json"@) == head + kept,
        kept.len() == 0 || kept[0] == '/',
        !kept.contains('?'),
{
    reveal_strlit(".json");
    let path = head + rest;
    let at = first_at(path, '?');
    lemma_first_at(path, '?');
    assert forall|i: int| 0 <= i < head.len() implies path[i] != '?' by {
        assert(head.contains(head[i]));
    }
    assert(at >= head.len());
    let cut = rest.take(at - head.len());
    assert(before_query(path) =~= head + cut);
    assert(!cut.contains('?')) by {
        if cut.contains('?') {
            let i = choose|i: int| 0 <= i < cut.len() && cut[i] == '?';
            assert(path[head.len() + i] == '?');
        }
    }
    let full = head + cut;
    if ".json"@.is_suffix_of(full) {
        let from = full.len() - 5;
        assert(full.subrange(from, full.len() as int) == ".json"@);
        if cut.len() < 5 {
            if cut.len() == 0 {
                assert(full =~= head);
            } else {
                assert(full[head.len() as int] == '/');
                assert(full.subrange(from, full.len() as int)[head.len() - from] == '/');
                assert(".json"@[head.len() - from] != '/');
            }
        }
        if cut.len() == 5 {
            assert(full.subrange(from, full.len() as int)[0] == cut[0]);
        }
        let kept = cut.take(cut.len() - 5);
        assert(full.take(full.len() - 5) =~= head + kept);
        assert(!kept.contains('?')) by {
            if kept.contains('?') {
                let i = choose|i: int| 0 <= i < kept.len() && kept[i] == '?';
                assert(cut[i] == '?');
            }
        }
        kept
    } else {
        cut
    }
}

/// A path ends in `.json` where its last segment does, and nowhere else.
proof fn lemma_last_segment(front: Seq<char>, last: Seq<char>)
    requires
        !".json"@.is_suffix_of(last),
    ensures
        !".json"@.is_suffix_of(front + "/"@ + last),
{
    reveal_strlit(".json");
    reveal_strlit("/");
    let full = front + "/"@ + last;
    if ".json"@.is_suffix_of(full) {
        let from = full.len() - 5;
        let tail = full.subrange(from, full.len() as int);
        assert(tail == ".json"@);
        if last.len() < 5 {
            assert(full[front.len() as int] == '/');
            assert(tail[front.len() - from] == '/');
            assert(".json"@[front.len() - from] != '/');
        } else {
            assert(last.subrange(last.len() - 5, last.len() as int) =~= tail);
        }
    }
}

/// A text without question marks in its parts has none.
proof fn lemma_no_question(a: Seq<char>, b: Seq<char>)
    requires
        !a.contains('?'),
        !b.contains('?'),
    ensures
        !(a + b).contains('?'),
{
    if (a + b).contains('?') {
        let i = choose|i: int| 0 <= i < (a + b).len() && (a + b)[i] == '?';
        if i < a.len() {
            assert(a[i] == '?');
        } else {
            assert(b[i - a.len()] == '?');
        }
    }
}

/// The segments of a path of one segment and a rest.
proof fn lemma_one_and_rest(a: Seq<char>, rest: Seq<char>)
    requires
        fits(a),
        !".json"@.is_suffix_of(a),
        rest.len() == 0 || rest[0] == '/',
    ensures
        upstream_segments("/"@ + a + rest).len() >= 1,
        upstream_segments("/"@ + a + rest)[0] == a,
        rest.len() == 0 ==> upstream_segments("/"@ + a + rest) == seq![a],
{
    reveal_strlit("/");
    let head = "/"@ + a;
    lemma_last_segment(Seq::empty(), a);
    assert(Seq::<char>::empty() + "/"@ + a =~= head);
    lemma_no_question("/"@, a);
    let kept = lemma_bare_rest(head, rest);
    lemma_segments_step(a, kept);
    if rest.len() == 0 {
        assert(head + rest =~= head);
        lemma_no_cut(head);
        assert(head + kept == head);
        assert(kept.len() == 0);
        lemma_no_segments(kept);
        assert(seq![a] + segments(kept) =~= seq![a]);
    }
}

/// A path without a query string and without a `.json` suffix is all bare.
proof fn lemma_no_cut(path: Seq<char>)
    requires
        !path.contains('?'),
        !".json"@.is_suffix_of(path),
    ensures
        without_tail(before_query(path), ".json"@) == path,
{
    assert forall|i: int| 0 <= i < path.len() implies path[i] != '?' by {
        assert(path.contains(path[i]));
    }
    lemma_first_at_is(path, '?', path.len() as int);
    assert(before_query(path) =~= path);
}

/// A text without characters has no segments.
proof fn lemma_no_segments(s: Seq<char>)
    requires
        s.len() == 0,
    ensures
        segments(s) == Seq::<Seq<char>>::empty(),
{
    assert(segments(s) =~= Seq::<Seq<char>>::empty());
}

/// The segments of a path of two.
proof fn lemma_two(a: Seq<char>, b: Seq<char>)
    requires
        fits(a),
        fits(b),
        !".json"@.is_suffix_of(b),
    ensures
        upstream_segments("/"@ + a + "/"@ + b) == seq![a, b],
{
    reveal_strlit("/");
    let path = "/"@ + a + "/"@ + b;
    lemma_last_segment("/"@ + a, b);
    lemma_no_question("/"@, a);
    lemma_no_question("/"@ + a, "/"@);
    lemma_no_question("/"@ + a + "/"@, b);
    lemma_no_cut(path);
    let rest = "/"@ + b;
    assert(path =~= "/"@ + a + rest);
    lemma_segments_step(a, rest);
    lemma_segments_step(b, Seq::empty());
    assert("/"@ + b + Seq::<char>::empty() =~= rest);
    lemma_no_segments(Seq::empty());
    assert(seq![a] + (seq![b] + Seq::<Seq<char>>::empty()) =~= seq![a, b]);
}

/// The segments of a path of three and a rest.
proof fn lemma_three_and_rest(a: Seq<char>, b: Seq<char>, c: Seq<char>, rest: Seq<char>)
    requires
        fits(a),
        fits(b),
        fits(c),
        !".json"@.is_suffix_of(c),
        rest.len() == 0 || rest[0] == '/',
    ensures
        upstream_segments("/"@ + a + "/"@ + b + "/"@ + c + rest).len() >= 3,
        upstream_segments("/"@ + a + "/"@ + b + "/"@ + c + rest)[0] == a,
        upstream_segments("/"@ + a + "/"@ + b + "/"@ + c + rest)[1] == b,
        upstream_segments("/"@ + a + "/"@ + b + "/"@ + c + rest)[2] == c,
        rest.len() == 0 ==> upstream_segments("/"@ + a + "/"@ + b + "/"@ + c + rest) == seq![
            a,
            b,
            c,
        ],
{
    reveal_strlit("/");
    let head = "/"@ + a + "/"@ + b + "/"@ + c;
    lemma_last_segment("/"@ + a + "/"@ + b, c);
    lemma_no_question("/"@, a);
    lemma_no_question("/"@ + a, "/"@);
    lemma_no_question("/"@ + a + "/"@, b);
    lemma_no_question("/"@ + a + "/"@ + b, "/"@);
    lemma_no_question("/"@ + a + "/"@ + b + "/"@, c);
    let kept = lemma_bare_rest(head, rest);
    let from_c = "/"@ + c + kept;
    let from_b = "/"@ + b + from_c;
    assert(head + kept =~= "/"@ + a + from_b);
    lemma_segments_step(a, from_b);
    lemma_segments_step(b, from_c);
    lemma_segments_step(c, kept);
    let all = segments(head + kept);
    assert(all =~= seq![a, b, c] + segments(kept));
    if rest.len() == 0 {
        assert(head + rest =~= head);
        lemma_no_cut(head);
        assert(kept.len() == 0);
        lemma_no_segments(kept);
        assert(all =~= seq![a, b, c]);
    }
}

/// The names that the rule table goes by differ.
proof fn lemma_rule_names()
    ensures
        "r"@.len() == 1,
        "user"@.len() == 4,
        "wiki"@.len() == 4,
        "about"@.len() == 5,
        "search"@.len() == 6,
        "comments"@.len() == 8,
        "subreddits"@.len() == 10,
        !".json"@.is_suffix_of("r"@),
        !".json"@.is_suffix_of("user"@),
        !".json"@.is_suffix_of("wiki"@),
        !".json"@.is_suffix_of("about"@),
        !".json"@.is_suffix_of("search"@),
        !".json"@.is_suffix_of("comments"@),
        !".json"@.is_suffix_of("subreddits"@),
{
    reveal_strlit(".json");
    reveal_strlit("r");
    reveal_strlit("user");
    reveal_strlit("wiki");
    reveal_strlit("about");
    reveal_strlit("search");
    reveal_strlit("comments");
    reveal_strlit("subreddits");
    let n = "about"@;
    assert(n.subrange(0, 5)[0] == 'a');
    let n = "search"@;
    assert(n.subrange(1, 6)[0] == 'e');
    let n = "comments"@;
    assert(n.subrange(3, 8)[0] == 'm');
    let n = "subreddits"@;
    assert(n.subrange(5, 10)[0] == 'd');
}

/// A listing of a user goes under the template of that listing, whoever the user
/// is.
pub proof fn lemma_user_listing(name: Seq<char>, listing: Seq<char>)
    requires
        name.len() > 0 && !name.contains('/') && !name.contains('?'),
        listing.len() > 0 && !listing.contains('/') && !listing.contains('?'),
        !".json"@.is_suffix_of(listing),
    ensures
        upstream_template("/user/"@ + name + "/"@ + listing) == "/user/:name/"@ + listing,
{
    reveal_strlit("/user/:name/");
    lemma_names_fit();
    lemma_rule_names();
    lemma_three_and_rest("user"@, name, listing, Seq::empty());
    assert("/user/"@ =~= "/"@ + "user"@ + "/"@) by {
        reveal_strlit("/user/");
        reveal_strlit("user");
        reveal_strlit("/");
    }
    assert("/"@ + "user"@ + "/"@ + name + "/"@ + listing + Seq::<char>::empty() =~= "/user/"@ + name
        + "/"@ + listing);
    assert("/user/:name/"@ + "about"@ =~= "/user/:name/about"@) by {
        reveal_strlit("about");
        reveal_strlit("/user/:name/about");
    }
}

/// A listing of a subreddit, its search among them, goes under the template of
/// that listing, whatever the subreddit is, unless it is one of the sections that
/// have a template of their own.
pub proof fn lemma_subreddit_listing(sub: Seq<char>, listing: Seq<char>)
    requires
        sub.len() > 0 && !sub.contains('/') && !sub.contains('?'),
        listing.len() > 0 && !listing.contains('/') && !listing.contains('?'),
        !".json"@.is_suffix_of(listing),
        listing != "comments"@ && listing != "wiki"@ && listing != "about"@,
    ensures
        upstream_template("/r/"@ + sub + "/"@ + listing) == "/r/:sub/"@ + listing,
{
    lemma_names_fit();
    lemma_rule_names();
    lemma_three_and_rest("r"@, sub, listing, Seq::empty());
    assert("/r/"@ =~= "/"@ + "r"@ + "/"@) by {
        reveal_strlit("/r/");
        reveal_strlit("r");
        reveal_strlit("/");
    }
    assert("/"@ + "r"@ + "/"@ + sub + "/"@ + listing + Seq::<char>::empty() =~= "/r/"@ + sub + "/"@
        + listing);
    assert("/r/:sub/"@ + "search"@ =~= "/r/:sub/search"@) by {
        reveal_strlit("/r/:sub/");
        reveal_strlit("search");
        reveal_strlit("/r/:sub/search");
    }
}

/// Two listings go under one template exactly where they are the same listing,
/// whoever the users or whatever the subreddits are; and a listing of a user
/// never goes under that of a subreddit.
pub proof fn lemma_listings_apart(
    a: Seq<char>,
    one: Seq<char>,
    b: Seq<char>,
    other: Seq<char>,
)
    requires
        a.len() > 0 && !a.contains('/') && !a.contains('?'),
        b.len() > 0 && !b.contains('/') && !b.contains('?'),
        one.len() > 0 && !one.contains('/') && !one.contains('?') && !".json"@.is_suffix_of(one),
        other.len() > 0 && !other.contains('/') && !other.contains('?') && !".json"@.is_suffix_of(
            other,
        ),
        one != "comments"@ && one != "wiki"@ && one != "about"@,
        other != "comments"@ && other != "wiki"@ && other != "about"@,
    ensures
        upstream_template("/user/"@ + a + "/"@ + one) == upstream_template(
            "/user/"@ + b + "/"@ + other,
        ) <==> one == other,
        upstream_template("/r/"@ + a + "/"@ + one) == upstream_template("/r/"@ + b + "/"@ + other)
            <==> one == other,
        upstream_template("/user/"@ + a + "/"@ + one) != upstream_template(
            "/r/"@ + b + "/"@ + other,
        ),
{
    lemma_user_listing(a, one);
    lemma_user_listing(b, other);
    lemma_subreddit_listing(a, one);
    lemma_subreddit_listing(b, other);
    reveal_strlit("/user/:name/");
    reveal_strlit("/r/:sub/");
    lemma_same_behind("/user/:name/"@, one, other);
    lemma_same_behind("/r/:sub/"@, one, other);
    assert(("/user/:name/"@ + one)[1] == 'u');
    assert(("/r/:sub/"@ + other)[1] == 'r');
}

/// Texts behind the same text are the same where the whole is.
proof fn lemma_same_behind(front: Seq<char>, a: Seq<char>, b: Seq<char>)
    ensures
        front + a == front + b <==> a == b,
{
    if front + a == front + b {
        assert((front + a).skip(front.len() as int) =~= a);
        assert((front + b).skip(front.len() as int) =~= b);
    }
}

/// The threads, wiki pages and descriptions of a subreddit go under one template
/// each, whatever the subreddit is and whatever follows, query string included.
pub proof fn lemma_subreddit_sections(sub: Seq<char>, rest: Seq<char>)
    requires
        sub.len() > 0 && !sub.contains('/') && !sub.contains('?'),
        rest.len() == 0 || rest[0] == '/',
    ensures
        upstream_template("/r/"@ + sub + "/comments"@ + rest) == "/r/:sub/comments/:id"@,
        upstream_template("/r/"@ + sub + "/wiki"@ + rest) == "/r/:sub/wiki/:page"@,
        upstream_template("/r/"@ + sub + "/about"@ + rest) == "/r/:sub/about"@,
{
    lemma_names_fit();
    lemma_rule_names();
    lemma_three_and_rest("r"@, sub, "comments"@, rest);
    lemma_three_and_rest("r"@, sub, "wiki"@, rest);
    lemma_three_and_rest("r"@, sub, "about"@, rest);
    reveal_strlit("/");
    reveal_strlit("r");
    assert("/r/"@ =~= "/"@ + "r"@ + "/"@) by {
        reveal_strlit("/r/");
    }
    let front = "/"@ + "r"@ + "/"@ + sub + "/"@;
    assert(front + "comments"@ + rest =~= "/r/"@ + sub + "/comments"@ + rest) by {
        reveal_strlit("comments");
        reveal_strlit("/comments");
    }
    assert(front + "wiki"@ + rest =~= "/r/"@ + sub + "/wiki"@ + rest) by {
        reveal_strlit("wiki");
        reveal_strlit("/wiki");
    }
    assert(front + "about"@ + rest =~= "/r/"@ + sub + "/about"@ + rest) by {
        reveal_strlit("about");
        reveal_strlit("/about");
    }
    assert("wiki"@ != "comments"@ && "about"@ != "comments"@ && "about"@ != "wiki"@);
}

/// All threads go under one template, whatever follows, query string included.
pub proof fn lemma_threads(rest: Seq<char>)
    requires
        rest.len() == 0 || rest[0] == '/',
    ensures
        upstream_template("/comments"@ + rest) == "/comments/:id"@,
{
    lemma_names_fit();
    lemma_rule_names();
    lemma_one_and_rest("comments"@, rest);
    assert("/"@ + "comments"@ + rest =~= "/comments"@ + rest) by {
        reveal_strlit("/");
        reveal_strlit("comments");
        reveal_strlit("/comments");
    }
}

/// The front pages of subreddits go under one template, and those of users under
/// another.
pub proof fn lemma_front_pages(name: Seq<char>)
    requires
        name.len() > 0 && !name.contains('/') && !name.contains('?'),
        !".json"@.is_suffix_of(name),
    ensures
        upstream_template("/r/"@ + name) == "/r/:sub"@,
        upstream_template("/user/"@ + name) == "/user/:name"@,
{
    lemma_names_fit();
    lemma_rule_names();
    lemma_two("r"@, name);
    lemma_two("user"@, name);
    reveal_strlit("/");
    assert("/"@ + "r"@ + "/"@ + name =~= "/r/"@ + name) by {
        reveal_strlit("r");
        reveal_strlit("/r/");
    }
    assert("/"@ + "user"@ + "/"@ + name =~= "/user/"@ + name) by {
        reveal_strlit("user");
        reveal_strlit("/user/");
    }
}

/// Whether a path is written without frills: behind a slash, without a query
/// string, a `.json` suffix, an empty segment or a slash at its end.
pub open spec fn tidy(path: Seq<char>) -> bool {
    &&& path.len() > 1
    &&& path[0] == '/'
    &&& path.last() != '/'
    &&& forall|i: int| 0 <= i < path.len() - 1 ==> !(#[trigger] path[i] == '/' && path[i + 1] == '/')
    &&& !path.contains('?')
    &&& !".json"@.is_suffix_of(path)
}

/// A tidy path is its segments behind slashes.
proof fn lemma_tidy_rooted(path: Seq<char>)
    requires
        path.len() > 1,
        path[0] == '/',
        path.last() != '/',
        forall|i: int|
            0 <= i < path.len() - 1 ==> !(#[trigger] path[i] == '/' && path[i + 1] == '/'),
    ensures
        rooted(segments(path)) == path,
        segments(path).len() > 0,
    decreases path.len(),
{
    reveal_strlit("/");
    let body = path.skip(1);
    lemma_first_at_is(path, '/', 0);
    assert(segments(path) == segments(body));
    let end = first_at(body, '/');
    lemma_first_at(body, '/');
    assert(body[0] != '/') by {
        assert(path[0] == '/');
        assert(path[0int + 1] != '/');
    }
    assert(end > 0);
    let seg = body.take(end);
    if end == body.len() {
        assert(segments(body) =~= seq![seg]);
        lemma_rooted_few(seg, seg, seg, seg);
        assert(path =~= "/"@ + seg);
    } else {
        let rest = body.skip(end);
        assert(rest.last() == path.last());
        assert(rest.len() > 1) by {
            if rest.len() == 1 {
                assert(rest.last() == rest[0]);
            }
        }
        assert forall|i: int| 0 <= i < rest.len() - 1 implies !(#[trigger] rest[i] == '/' && rest[i
            + 1] == '/') by {
            assert(rest[i] == path[end + 1 + i]);
            assert(rest[i + 1] == path[end + 1 + i + 1]);
        }
        lemma_tidy_rooted(rest);
        lemma_first_at_is(rest, '/', 0);
        assert(rest.skip(1) =~= body.skip(end + 1));
        assert(segments(rest) == segments(body.skip(end + 1)));
        let segs = segments(body);
        assert(segs =~= seq![seg] + segments(rest));
        lemma_rooted_front(segs);
        assert(segs.drop_first() =~= segments(rest));
        assert(path =~= "/"@ + seg + rest);
    }
}

/// A tidy path whose segments no rule rewrites is its own template.
proof fn lemma_unruled(path: Seq<char>)
    requires
        tidy(path),
        template_segments(segments(path)) == segments(path),
    ensures
        upstream_template(path) == path,
{
    lemma_no_cut(path);
    lemma_tidy_rooted(path);
    lemma_segments_plain(path);
    lemma_template_shape(segments(path));
}

/// A tidy path that begins otherwise than those of subreddits, users and threads
/// is its own template.
pub proof fn lemma_other_paths_stay(first: Seq<char>, rest: Seq<char>)
    requires
        first.len() > 0 && !first.contains('/'),
        rest.len() == 0 || rest[0] == '/',
        tidy("/"@ + first + rest),
        first != "comments"@,
        first == "r"@ || first == "user"@ ==> rest.len() == 0,
    ensures
        upstream_template("/"@ + first + rest) == "/"@ + first + rest,
{
    reveal_strlit("/");
    let path = "/"@ + first + rest;
    lemma_rule_names();
    lemma_segments_step(first, rest);
    if rest.len() == 0 {
        lemma_no_segments(rest);
    }
    assert(segments(path)[0] == first);
    lemma_unruled(path);
}

/// A tidy path that goes deeper into a user, or into a listing of a subreddit
/// without a template of its own, is its own template.
pub proof fn lemma_deep_paths_stay(
    first: Seq<char>,
    name: Seq<char>,
    listing: Seq<char>,
    rest: Seq<char>,
)
    requires
        first == "user"@ || first == "r"@ && listing != "comments"@ && listing != "wiki"@ && listing
            != "about"@,
        name.len() > 0 && !name.contains('/'),
        listing.len() > 0 && !listing.contains('/'),
        rest.len() > 0 && rest[0] == '/',
        tidy("/"@ + first + "/"@ + name + "/"@ + listing + rest),
    ensures
        upstream_template("/"@ + first + "/"@ + name + "/"@ + listing + rest) == "/"@ + first + "/"@
            + name + "/"@ + listing + rest,
{
    reveal_strlit("/");
    lemma_names_fit();
    lemma_rule_names();
    let path = "/"@ + first + "/"@ + name + "/"@ + listing + rest;
    let from_listing = "/"@ + listing + rest;
    let from_name = "/"@ + name + from_listing;
    assert(path =~= "/"@ + first + from_name);
    lemma_segments_step(first, from_name);
    lemma_segments_step(name, from_listing);
    lemma_segments_step(listing, rest);
    assert(rest.last() == path.last());
    assert(rest.len() > 1);
    assert forall|i: int| 0 <= i < rest.len() - 1 implies !(#[trigger] rest[i] == '/' && rest[i + 1]
        == '/') by {
        let at = path.len() - rest.len();
        assert(rest[i] == path[at + i]);
        assert(rest[i + 1] == path[at + i + 1]);
    }
    lemma_tidy_rooted(rest);
    let segs = segments(path);
    assert(segs =~= seq![first, name, listing] + segments(rest));
    assert(segs.len() > 3 && segs[0] == first && segs[2] == listing);
    lemma_unruled(path);
}

/// The root is its own template, with or without its slash.
pub proof fn lemma_root()
    ensures
        upstream_template(""@) == "/"@,
        upstream_template("/"@) == "/"@,
{
    reveal_strlit("");
    reveal_strlit("/");
    reveal_strlit(".json");
    lemma_no_cut(""@);
    lemma_no_cut("/"@);
    lemma_no_segments(""@);
    lemma_first_at_is("/"@, '/', 0);
    assert("/"@.skip(1) =~= Seq::empty());
    lemma_no_segments("/"@.skip(1));
    assert(segments("/"@) =~= Seq::empty());
}

/// A slash before a path makes no difference to the template, so neither does a
/// second one.
pub proof fn lemma_leading_slash_is_ignored(path: Seq<char>)
    ensures
        upstream_template("/"@ + path) == upstream_template(path),
{
    reveal_strlit("/");
    reveal_strlit(".json");
    let full = "/"@ + path;
    let at = first_at(path, '?');
    lemma_first_at(path, '?');
    assert forall|i: int| 0 <= i < at + 1 implies full[i] != '?' by {
        if i > 0 {
            assert(full[i] == path[i - 1]);
        }
    }
    lemma_first_at_is(full, '?', at + 1);
    let short = before_query(path);
    let long = before_query(full);
    assert(long =~= "/"@ + short);
    if ".json"@.is_suffix_of(short) {
        assert(long.subrange(long.len() - 5, long.len() as int) =~= short.subrange(
            short.len() - 5,
            short.len() as int,
        ));
    }
    if ".json"@.is_suffix_of(long) {
        if short.len() < 5 {
            assert(long.subrange(0, 5)[0] == '/');
        } else {
            assert(long.subrange(long.len() - 5, long.len() as int) =~= short.subrange(
                short.len() - 5,
                short.len() as int,
            ));
        }
    }
    let bare = without_tail(short, ".json"@);
    assert(without_tail(long, ".json"@) =~= "/"@ + bare);
    lemma_first_at_is("/"@ + bare, '/', 0);
    assert(("/"@ + bare).skip(1) =~= bare);
}

/// The `.json` suffix and the query string together make no difference to the
/// template.
pub proof fn lemma_suffix_and_query_are_ignored(path: Seq<char>, query: Seq<char>)
    requires
        !path.contains('?'),
        !".json"@.is_suffix_of(path),
    ensures
        upstream_template(path + ".json"@ + "?"@ + query) == upstream_template(path),
        upstream_template(path + "?"@ + query) == upstream_template(path),
{
    reveal_strlit("?");
    assert("?"@ =~= seq!['?']);
    lemma_query_is_ignored(path + ".json"@, query);
    lemma_query_is_ignored(path, query);
    lemma_json_suffix_is_ignored(path);
}

/// A path with a `.json` suffix goes by the segments of what stands before it.
proof fn lemma_suffixed(path: Seq<char>)
    requires
        !path.contains('?'),
    ensures
        upstream_segments(path + ".json"@) == segments(path),
{
    reveal_strlit(".json");
    let full = path + ".json"@;
    assert forall|i: int| 0 <= i < full.len() implies full[i] != '?' by {
        if i < path.len() {
            assert(path.contains(path[i]));
        } else {
            assert(full[i] == ".json"@[i - path.len()]);
        }
    }
    lemma_first_at_is(full, '?', full.len() as int);
    assert(before_query(full) =~= full);
    assert(full.subrange(path.len() as int, full.len() as int) =~= ".json"@);
    assert(full.take(full.len() - ".json"@.len()) =~= path);
}

/// One `.json` suffix is dropped, and only one: what stands before it is the
/// listing, whatever it ends in.
pub proof fn lemma_one_suffix_dropped(name: Seq<char>, listing: Seq<char>)
    requires
        name.len() > 0 && !name.contains('/') && !name.contains('?'),
        listing.len() > 0 && !listing.contains('/') && !listing.contains('?'),
        listing != "comments"@ && listing != "wiki"@ && listing != "about"@,
    ensures
        upstream_template("/user/"@ + name + "/"@ + listing + ".json"@) == "/user/:name/"@
            + listing,
        upstream_template("/r/"@ + name + "/"@ + listing + ".json"@) == "/r/:sub/"@ + listing,
{
    reveal_strlit("/");
    lemma_names_fit();
    lemma_rule_names();
    lemma_templates_rooted(listing);
    let rest = "/"@ + listing;
    lemma_segments_step(listing, Seq::empty());
    lemma_no_segments(Seq::empty());
    assert("/"@ + listing + Seq::<char>::empty() =~= rest);
    assert(segments(rest) =~= seq![listing]);
    let deep = "/"@ + name + rest;
    lemma_segments_step(name, rest);
    assert(segments(deep) =~= seq![name, listing]);
    lemma_no_question("/"@, listing);
    lemma_no_question("/"@, name);
    lemma_no_question("/"@ + name, rest);
    lemma_no_question("/"@, "user"@);
    lemma_no_question("/"@ + "user"@, deep);
    lemma_no_question("/"@, "r"@);
    lemma_no_question("/"@ + "r"@, deep);
    lemma_segments_step("user"@, deep);
    lemma_segments_step("r"@, deep);
    assert("/"@ + "user"@ + deep =~= "/user/"@ + name + "/"@ + listing) by {
        reveal_strlit("user");
        reveal_strlit("/user/");
    }
    assert("/"@ + "r"@ + deep =~= "/r/"@ + name + "/"@ + listing) by {
        reveal_strlit("r");
        reveal_strlit("/r/");
    }
    assert(seq!["user"@] + seq![name, listing] =~= seq!["user"@, name, listing]);
    assert(seq!["r"@] + seq![name, listing] =~= seq!["r"@, name, listing]);
    lemma_suffixed("/user/"@ + name + "/"@ + listing);
    lemma_suffixed("/r/"@ + name + "/"@ + listing);
    assert("/r/:sub/"@ + "search"@ =~= "/r/:sub/search"@) by {
        reveal_strlit("/r/:sub/");
        reveal_strlit("search");
        reveal_strlit("/r/:sub/search");
    }
}

/// An empty segment is no segment.
proof fn lemma_empty_segment(a: Seq<char>, b: Seq<char>)
    ensures
        segments(a + seq!['/', '/'] + b) == segments(a + seq!['/'] + b),
    decreases a.len(),
{
    let long = a + seq!['/', '/'] + b;
    let short = a + seq!['/'] + b;
    let end = first_at(a, '/');
    lemma_first_at(a, '/');
    assert forall|i: int| 0 <= i < end implies long[i] != '/' && short[i] != '/' by {
        assert(long[i] == a[i] && short[i] == a[i]);
    }
    lemma_first_at_is(long, '/', end);
    lemma_first_at_is(short, '/', end);
    assert(long.take(end) =~= short.take(end));
    if end < a.len() {
        let rest = a.skip(end + 1);
        assert(long.skip(end + 1) =~= rest + seq!['/', '/'] + b);
        assert(short.skip(end + 1) =~= rest + seq!['/'] + b);
        lemma_empty_segment(rest, b);
    } else {
        let behind = long.skip(end + 1);
        assert(behind =~= seq!['/'] + b);
        assert(short.skip(end + 1) =~= b);
        lemma_first_at_is(behind, '/', 0);
        assert(behind.skip(1) =~= b);
        assert(segments(behind) == segments(b));
    }
}

/// Two slashes in a row count as one.
pub proof fn lemma_slashes_collapse(a: Seq<char>, b: Seq<char>)
    ensures
        upstream_template(a + "//"@ + b) == upstream_template(a + "/"@ + b),
{
    reveal_strlit("/");
    reveal_strlit("//");
    reveal_strlit(".json");
    assert("//"@ =~= seq!['/', '/']);
    assert("/"@ =~= seq!['/']);
    let long = a + seq!['/', '/'] + b;
    let short = a + seq!['/'] + b;
    lemma_first_at(a, '?');
    lemma_first_at(b, '?');
    let in_a = first_at(a, '?');
    let in_b = first_at(b, '?');
    if in_a < a.len() {
        assert forall|i: int| 0 <= i < in_a implies long[i] != '?' && short[i] != '?' by {
            assert(long[i] == a[i] && short[i] == a[i]);
        }
        lemma_first_at_is(long, '?', in_a);
        lemma_first_at_is(short, '?', in_a);
        assert(before_query(long) =~= before_query(short));
    } else {
        let kept = b.take(in_b);
        assert forall|i: int| 0 <= i < a.len() + 2 + in_b implies long[i] != '?' by {
            if i < a.len() {
                assert(long[i] == a[i]);
            } else if i >= a.len() + 2 {
                assert(long[i] == b[i - a.len() - 2]);
            }
        }
        assert forall|i: int| 0 <= i < a.len() + 1 + in_b implies short[i] != '?' by {
            if i < a.len() {
                assert(short[i] == a[i]);
            } else if i >= a.len() + 1 {
                assert(short[i] == b[i - a.len() - 1]);
            }
        }
        lemma_first_at_is(long, '?', a.len() + 2 + in_b);
        lemma_first_at_is(short, '?', a.len() + 1 + in_b);
        let one = before_query(short);
        let two = before_query(long);
        assert(one =~= a + seq!['/'] + kept);
        assert(two =~= a + seq!['/', '/'] + kept);
        if kept.len() >= 5 {
            assert(one.subrange(one.len() - 5, one.len() as int) =~= two.subrange(
                two.len() - 5,
                two.len() as int,
            ));
            let bare = kept.take(kept.len() - 5);
            assert(one.take(one.len() - 5) =~= a + seq!['/'] + bare);
            assert(two.take(two.len() - 5) =~= a + seq!['/', '/'] + bare);
            lemma_empty_segment(a, bare);
        } else {
            if ".json"@.is_suffix_of(one) {
                let tail = one.subrange(one.len() - 5, one.len() as int);
                assert(tail[4 - kept.len()] == '/');
                assert(".json"@[4 - kept.len()] != '/');
            }
            if ".json"@.is_suffix_of(two) {
                let tail = two.subrange(two.len() - 5, two.len() as int);
                assert(tail[4 - kept.len()] == '/');
                assert(".json"@[4 - kept.len()] != '/');
            }
        }
        lemma_empty_segment(a, kept);
    }
}

} // verus!
