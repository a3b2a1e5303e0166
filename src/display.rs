//! The display tool's report: the `Display` model, the report parser, and
//! the argument strings handed back to the tool.
use vstd::prelude::*;
use vstd::string::*;
use crate::error::CoreError;
use crate::text::{
    chars_of, contains, has_infix, has_prefix, int_from, int_of, is_ws, skip_chars, split_chars,
    split_on, split_ws, starts_with, string_of, take_chars, trim_start, trim_start_chars,
    views_of, ws_scan, ws_tokens,
};

verus! {

/// One output as the display tool reports it.
#[derive(Debug)]
pub struct Display {
    /// The tool's identifier for the output.
    pub id: String,
    /// Resolution as the tool writes it (`2560x1440`); empty when the report
    /// gave none.
    pub resolution: String,
    /// Position of the top-left corner.
    pub origin: (i32, i32),
    /// Rotation in degrees.
    pub rotation: i32,
    /// Whether the output is switched on.
    pub enabled: bool,
}

/// What a `Display` holds, with its strings as character sequences.
pub struct DisplayView {
    pub id: Seq<char>,
    pub resolution: Seq<char>,
    pub origin: (i32, i32),
    pub rotation: i32,
    pub enabled: bool,
}

impl View for Display {
    type V = DisplayView;

    open spec fn view(&self) -> DisplayView {
        DisplayView {
            id: self.id@,
            resolution: self.resolution@,
            origin: self.origin,
            rotation: self.rotation,
            enabled: self.enabled,
        }
    }
}

/// The displays of one report, with the report text kept for diagnostics.
#[derive(Debug)]
pub struct DisplayConfig {
    pub displays: Vec<Display>,
    pub raw_command: String,
}

/// What each display of `ds` holds.
pub open spec fn display_views(ds: Seq<Display>) -> Seq<DisplayView> {
    ds.map_values(|d: Display| d@)
}

/// The line that introduces the command to run; lines before it are examples.
pub open spec fn marker() -> Seq<char> {
    "Execute the command below"@
}

/// The tool's own name, which starts every invocation line.
pub open spec fn tool_name() -> Seq<char> {
    "displayplacer"@
}

/// The key of a display's identifier.
pub open spec fn id_key() -> Seq<char> {
    "id:"@
}

/// The key of a display's resolution.
pub open spec fn res_key() -> Seq<char> {
    "res:"@
}

/// The key of a display's position.
pub open spec fn origin_key() -> Seq<char> {
    "origin:"@
}

/// The key of a display's rotation.
pub open spec fn degree_key() -> Seq<char> {
    "degree:"@
}

/// The word whose presence marks a display as switched off.
pub open spec fn disabled_word() -> Seq<char> {
    "disabled"@
}

/// `s` without one leading `(` and one trailing `)`, each where present.
pub open spec fn strip_parens(s: Seq<char>) -> Seq<char> {
    let a = if s.len() > 0 && s[0] == '(' {
        s.skip(1)
    } else {
        s
    };
    if a.len() > 0 && a.last() == ')' {
        a.drop_last()
    } else {
        a
    }
}

/// The pair that `(x,y)` denotes: after the parentheses, exactly two
/// comma-separated integers.
pub open spec fn coords_of(s: Seq<char>) -> Option<(i32, i32)> {
    let parts = split_on(strip_parens(s), ',');
    if parts.len() == 2 && int_of(parts[0]) is Some && int_of(parts[1]) is Some {
        Some((int_of(parts[0])->0, int_of(parts[1])->0))
    } else {
        None
    }
}

/// The fields before any token is read.
pub open spec fn blank_fields() -> DisplayView {
    DisplayView { id: seq![], resolution: seq![], origin: (0, 0), rotation: 0, enabled: true }
}

/// The fields after reading token `t`: a recognised key sets its field; an
/// origin that does not parse leaves the origin as it was; a degree that does
/// not parse sets the rotation to 0.
pub open spec fn apply_token(f: DisplayView, t: Seq<char>) -> DisplayView {
    if has_prefix(t, id_key()) {
        DisplayView { id: t.skip(id_key().len() as int), ..f }
    } else if has_prefix(t, res_key()) {
        DisplayView { resolution: t.skip(res_key().len() as int), ..f }
    } else if has_prefix(t, origin_key()) {
        match coords_of(t.skip(origin_key().len() as int)) {
            Some(c) => DisplayView { origin: c, ..f },
            None => f,
        }
    } else if has_prefix(t, degree_key()) {
        DisplayView {
            rotation: match int_of(t.skip(degree_key().len() as int)) {
                Some(v) => v,
                None => 0,
            },
            ..f
        }
    } else {
        f
    }
}

/// The fields after reading the tokens `ts` in order.
pub open spec fn fields_after(ts: Seq<Seq<char>>) -> DisplayView
    decreases ts.len(),
{
    if ts.len() == 0 {
        blank_fields()
    } else {
        apply_token(fields_after(ts.drop_last()), ts.last())
    }
}

/// The display that one clause describes, if it names an id. It is enabled
/// exactly when the word `disabled` does not occur in it.
pub open spec fn display_of(c: Seq<char>) -> Option<DisplayView> {
    let f = fields_after(ws_tokens(c));
    if f.id.len() > 0 {
        Some(DisplayView { enabled: !has_infix(c, disabled_word()), ..f })
    } else {
        None
    }
}

/// A quoted segment that may describe a display.
pub open spec fn is_candidate(p: Seq<char>) -> bool {
    has_infix(p, id_key())
}

/// A line that runs the tool with display clauses.
pub open spec fn is_invocation(l: Seq<char>) -> bool {
    has_prefix(trim_start(l), tool_name()) && has_infix(l, id_key()) && has_infix(l, origin_key())
}

/// The displays described by the segments `parts` of one line, in order.
pub open spec fn part_displays(parts: Seq<Seq<char>>) -> Seq<DisplayView>
    decreases parts.len(),
{
    if parts.len() == 0 {
        seq![]
    } else {
        let before = part_displays(parts.drop_last());
        let p = parts.last();
        if is_candidate(p) && display_of(p) is Some {
            before.push(display_of(p)->0)
        } else {
            before
        }
    }
}

/// The displays of an invocation line: one per quoted segment that describes one.
pub open spec fn line_displays(l: Seq<char>) -> Seq<DisplayView> {
    part_displays(split_on(l, '"'))
}

/// Reading `lines` in order: whether the marker has been seen, and the
/// displays collected from the invocation lines after it.
pub open spec fn report_scan(lines: Seq<Seq<char>>) -> (bool, Seq<DisplayView>)
    decreases lines.len(),
{
    if lines.len() == 0 {
        (false, seq![])
    } else {
        let (found, ds) = report_scan(lines.drop_last());
        let l = lines.last();
        if has_infix(l, marker()) {
            (true, ds)
        } else if found && is_invocation(l) {
            (found, ds + line_displays(l))
        } else {
            (found, ds)
        }
    }
}

/// The displays that a report describes, in order. Lines are split at `\n`;
/// a `\r` before it is whitespace to every later step.
pub open spec fn report_displays(text: Seq<char>) -> Seq<DisplayView> {
    report_scan(split_on(text, '\n')).1
}

/// `s` without one leading `(` and one trailing `)`.
fn strip_parens_chars(s: &Vec<char>) -> (r: Vec<char>)
    ensures
        r@ == strip_parens(s@),
{
    let a = if s.len() > 0 && s[0] == '(' {
        skip_chars(s, 1)
    } else {
        skip_chars(s, 0)
    };
    proof {
        assert(s@.skip(0) =~= s@);
    }
    if a.len() > 0 && a[a.len() - 1] == ')' {
        take_chars(&a, a.len() - 1)
    } else {
        a
    }
}

/// The coordinate pair that `s` denotes, as `coords_of` says.
fn coords_from(s: &Vec<char>) -> (r: Option<(i32, i32)>)
    ensures
        r == coords_of(s@),
{
    let inner = strip_parens_chars(s);
    let parts = split_chars(&inner, ',');
    if parts.len() == 2 {
        proof {
            assert(views_of(parts@)[0] == parts@[0]@);
            assert(views_of(parts@)[1] == parts@[1]@);
        }
        let x = int_from(&parts[0]);
        let y = int_from(&parts[1]);
        match (x, y) {
            (Some(a), Some(b)) => Some((a, b)),
            _ => None,
        }
    } else {
        None
    }
}

/// Parses a coordinate pair such as `(2560,0)` or `(-1920,0)`: one leading
/// `(` and one trailing `)` are dropped where present, and the rest must be
/// two integers separated by the one comma. `None` for any other shape.
pub fn parse_coordinates(s: &str) -> (r: Option<(i32, i32)>)
    ensures
        r == coords_of(s@),
{
    let cs = chars_of(s);
    coords_from(&cs)
}

/// The display that the clause `c` describes, as `display_of` says.
fn display_from_chars(c: &Vec<char>) -> (r: Option<Display>)
    ensures
        match r {
            Some(d) => display_of(c@) == Some(d@),
            None => display_of(c@) is None,
        },
{
    let id_k = chars_of("id:");
    let res_k = chars_of("res:");
    let origin_k = chars_of("origin:");
    let degree_k = chars_of("degree:");
    let dis = chars_of("disabled");
    let enabled = !contains(c, &dis);
    let toks = split_ws(c);
    let mut id: Vec<char> = Vec::new();
    let mut res: Vec<char> = Vec::new();
    let mut origin: (i32, i32) = (0, 0);
    let mut rotation: i32 = 0;
    let mut k: usize = 0;
    while k < toks.len()
        invariant
            views_of(toks@) == ws_tokens(c@),
            k <= toks.len(),
            id_k@ == id_key(),
            res_k@ == res_key(),
            origin_k@ == origin_key(),
            degree_k@ == degree_key(),
            fields_after(views_of(toks@).take(k as int)) == (DisplayView {
                id: id@,
                resolution: res@,
                origin,
                rotation,
                enabled: true,
            }),
        decreases toks.len() - k,
    {
        let t = &toks[k];
        proof {
            assert(views_of(toks@).take(k + 1).drop_last() =~= views_of(toks@).take(k as int));
            assert(views_of(toks@)[k as int] == t@);
        }
        if starts_with(t, &id_k) {
            id = skip_chars(t, id_k.len());
        } else if starts_with(t, &res_k) {
            res = skip_chars(t, res_k.len());
        } else if starts_with(t, &origin_k) {
            let o = skip_chars(t, origin_k.len());
            match coords_from(&o) {
                Some(cd) => {
                    origin = cd;
                },
                None => {},
            }
        } else if starts_with(t, &degree_k) {
            let d = skip_chars(t, degree_k.len());
            rotation = match int_from(&d) {
                Some(v) => v,
                None => 0,
            };
        }
        k += 1;
    }
    proof {
        assert(views_of(toks@).take(toks.len() as int) =~= views_of(toks@));
    }
    if id.len() > 0 {
        Some(Display { id: string_of(&id), resolution: string_of(&res), origin, rotation, enabled })
    } else {
        None
    }
}

/// Parses one display clause such as `id:1 res:2560x1440 origin:(0,0)
/// degree:0`. Tokens are separated by whitespace; `id:`, `res:`, `origin:` and
/// `degree:` set their field, a later token of a key overriding an earlier
/// one. `None` when no non-empty id is set.
pub fn parse_display_string(config: &str) -> (r: Option<Display>)
    ensures
        match r {
            Some(d) => display_of(config@) == Some(d@) && d.enabled == !has_infix(
                config@,
                disabled_word(),
            ),
            None => display_of(config@) is None,
        },
{
    let cs = chars_of(config);
    display_from_chars(&cs)
}

/// Parses the tool's `list` report into its displays. Lines before the
/// marker line are examples and are ignored; after it, each line that starts
/// (after whitespace) with the tool's name and holds `id:` and `origin:`
/// contributes one display per quoted segment that holds `id:` and names an
/// id; a segment without an origin gets the default `(0,0)`. A report that yields no display at all is a `ParseFailure`.
pub fn parse_displayplacer_output(output: &str) -> (r: Result<Vec<Display>, CoreError>)
    ensures
        r is Ok <==> report_displays(output@).len() > 0,
        match r {
            Ok(v) => display_views(v@) == report_displays(output@),
            Err(e) => e is ParseFailure,
        },
{
    let text = chars_of(output);
    let lines = split_chars(&text, '\n');
    let marker_k = chars_of("Execute the command below");
    let tool_k = chars_of("displayplacer");
    let id_k = chars_of("id:");
    let origin_k = chars_of("origin:");
    let mut found = false;
    let mut displays: Vec<Display> = Vec::new();
    let mut i: usize = 0;
    while i < lines.len()
        invariant
            views_of(lines@) == split_on(output@, '\n'),
            i <= lines.len(),
            marker_k@ == marker(),
            tool_k@ == tool_name(),
            id_k@ == id_key(),
            origin_k@ == origin_key(),
            report_scan(views_of(lines@).take(i as int)) == (found, display_views(displays@)),
        decreases lines.len() - i,
    {
        let line = &lines[i];
        proof {
            assert(views_of(lines@).take(i + 1).drop_last() =~= views_of(lines@).take(i as int));
            assert(views_of(lines@)[i as int] == line@);
        }
        if contains(line, &marker_k) {
            found = true;
        } else if found && starts_with(&trim_start_chars(line), &tool_k) && contains(line, &id_k)
            && contains(line, &origin_k) {
            let parts = split_chars(line, '"');
            let ghost before = display_views(displays@);
            let mut j: usize = 0;
            while j < parts.len()
                invariant
                    views_of(parts@) == split_on(line@, '"'),
                    j <= parts.len(),
                    id_k@ == id_key(),
                    display_views(displays@) == before + part_displays(
                        views_of(parts@).take(j as int),
                    ),
                decreases parts.len() - j,
            {
                let part = &parts[j];
                proof {
                    assert(views_of(parts@).take(j + 1).drop_last() =~= views_of(parts@).take(
                        j as int,
                    ));
                    assert(views_of(parts@)[j as int] == part@);
                }
                if contains(part, &id_k) {
                    match display_from_chars(part) {
                        Some(d) => {
                            let ghost mid = displays@;
                            displays.push(d);
                            proof {
                                assert(display_views(displays@) =~= display_views(mid).push(d@));
                                assert(before + part_displays(views_of(parts@).take(j + 1)) =~= (
                                before + part_displays(views_of(parts@).take(j as int))).push(
                                    d@,
                                ));
                            }
                        },
                        None => {},
                    }
                }
                j += 1;
            }
            proof {
                assert(views_of(parts@).take(parts.len() as int) =~= views_of(parts@));
            }
        }
        i += 1;
    }
    proof {
        assert(views_of(lines@).take(lines.len() as int) =~= views_of(lines@));
    }
    if displays.len() == 0 {
        Err(CoreError::ParseFailure)
    } else {
        Ok(displays)
    }
}

/// The display configuration of a successful `list` run: the displays that
/// `stdout` describes, and `stdout` itself.
pub fn display_config_from_report(stdout: &str) -> (r: Result<DisplayConfig, CoreError>)
    ensures
        r is Ok <==> report_displays(stdout@).len() > 0,
        match r {
            Ok(c) => display_views(c.displays@) == report_displays(stdout@) && c.raw_command@
                == stdout@,
            Err(e) => e is ParseFailure,
        },
{
    match parse_displayplacer_output(stdout) {
        Ok(displays) => Ok(DisplayConfig { displays, raw_command: String::from_str(stdout) }),
        Err(e) => Err(e),
    }
}

/// The argument that switches display `id` on or off: `id:<id>` and
/// `enabled:<true|false>`, joined by one space, and nothing else.
pub fn toggle_argument(id: &str, enabled: bool) -> (r: String)
    ensures
        r@ == "id:"@ + id@ + " enabled:"@ + (if enabled {
            "true"@
        } else {
            "false"@
        }),
{
    let a = String::from_str("id:");
    let b = a.concat(id);
    let c = b.concat(" enabled:");
    if enabled {
        c.concat("true")
    } else {
        c.concat("false")
    }
}

/// The outcome of one run of the tool, from whether it exited successfully
/// and what it wrote to stderr.
pub fn tool_outcome(success: bool, stderr: String) -> (r: Result<(), CoreError>)
    ensures
        success ==> r is Ok,
        !success ==> r == Err::<(), CoreError>(CoreError::ExternalToolFailed(stderr)),
{
    if success {
        Ok(())
    } else {
        Err(CoreError::ExternalToolFailed(stderr))
    }
}

/// Which field a token sets: 1 for `id:`, 2 for `res:`, 3 for `origin:`,
/// 4 for `degree:`, 0 for none.
pub open spec fn key_rank(t: Seq<char>) -> int {
    if has_prefix(t, id_key()) {
        1
    } else if has_prefix(t, res_key()) {
        2
    } else if has_prefix(t, origin_key()) {
        3
    } else if has_prefix(t, degree_key()) {
        4
    } else {
        0
    }
}

/// Tokens that set different fields can be read in either order.
proof fn lemma_apply_commutes(f: DisplayView, a: Seq<char>, b: Seq<char>)
    requires
        key_rank(a) != key_rank(b),
    ensures
        apply_token(apply_token(f, a), b) == apply_token(apply_token(f, b), a),
{
}

/// Reading the same further tokens after equal fields gives equal fields.
proof fn lemma_fields_after_append(x: Seq<Seq<char>>, y: Seq<Seq<char>>, z: Seq<Seq<char>>)
    requires
        fields_after(x) == fields_after(y),
    ensures
        fields_after(x + z) == fields_after(y + z),
    decreases z.len(),
{
    if z.len() == 0 {
        assert(x + z =~= x);
        assert(y + z =~= y);
    } else {
        lemma_fields_after_append(x, y, z.drop_last());
        assert((x + z).drop_last() =~= x + z.drop_last());
        assert((y + z).drop_last() =~= y + z.drop_last());
    }
}

/// The order of the tokens within a clause does not matter: two clauses whose
/// tokens differ only in two neighbours that set different fields, and that
/// agree on holding the word `disabled`, describe the same display.
pub proof fn lemma_token_order_irrelevant(
    c1: Seq<char>,
    c2: Seq<char>,
    before: Seq<Seq<char>>,
    a: Seq<char>,
    b: Seq<char>,
    after: Seq<Seq<char>>,
)
    requires
        ws_tokens(c1) == before + seq![a, b] + after,
        ws_tokens(c2) == before + seq![b, a] + after,
        key_rank(a) != key_rank(b),
        has_infix(c1, disabled_word()) == has_infix(c2, disabled_word()),
    ensures
        display_of(c1) == display_of(c2),
{
    let x = before + seq![a, b];
    let y = before + seq![b, a];
    assert(x.drop_last() =~= before.push(a));
    assert(y.drop_last() =~= before.push(b));
    assert(before.push(a).drop_last() =~= before);
    assert(before.push(b).drop_last() =~= before);
    assert(x.last() == b && y.last() == a);
    assert(before.push(a).last() == a && before.push(b).last() == b);
    assert(fields_after(before.push(a)) == apply_token(fields_after(before), a));
    assert(fields_after(before.push(b)) == apply_token(fields_after(before), b));
    assert(fields_after(x) == apply_token(fields_after(before.push(a)), b));
    assert(fields_after(y) == apply_token(fields_after(before.push(b)), a));
    lemma_apply_commutes(fields_after(before), a, b);
    lemma_fields_after_append(x, y, after);
}

/// The last token of `ts` that sets field `k` (as `key_rank` numbers them).
pub open spec fn last_of_rank(ts: Seq<Seq<char>>, k: int) -> Option<Seq<char>>
    decreases ts.len(),
{
    if ts.len() == 0 {
        None
    } else if key_rank(ts.last()) == k {
        Some(ts.last())
    } else {
        last_of_rank(ts.drop_last(), k)
    }
}

/// At most one token of `ts` sets field `k`.
pub open spec fn at_most_one(ts: Seq<Seq<char>>, k: int) -> bool {
    forall|i: int, j: int|
        0 <= i < ts.len() && 0 <= j < ts.len() && key_rank(#[trigger] ts[i]) == k && key_rank(
            #[trigger] ts[j],
        ) == k ==> i == j
}

/// Each of the four keys occurs in at most one token of `ts`.
pub open spec fn unique_keys(ts: Seq<Seq<char>>) -> bool {
    at_most_one(ts, 1) && at_most_one(ts, 2) && at_most_one(ts, 3) && at_most_one(ts, 4)
}

/// The fields that tokens with unique keys set: each from the one token
/// of its key, or its default.
pub open spec fn fields_from(ts: Seq<Seq<char>>) -> DisplayView {
    DisplayView {
        id: match last_of_rank(ts, 1) {
            Some(t) => t.skip(id_key().len() as int),
            None => seq![],
        },
        resolution: match last_of_rank(ts, 2) {
            Some(t) => t.skip(res_key().len() as int),
            None => seq![],
        },
        origin: match last_of_rank(ts, 3) {
            Some(t) => match coords_of(t.skip(origin_key().len() as int)) {
                Some(c) => c,
                None => (0, 0),
            },
            None => (0, 0),
        },
        rotation: match last_of_rank(ts, 4) {
            Some(t) => match int_of(t.skip(degree_key().len() as int)) {
                Some(v) => v,
                None => 0,
            },
            None => 0,
        },
        enabled: true,
    }
}

/// The token that `last_of_rank` finds is a token of `ts` of that key;
/// when it finds none, no token has the key.
proof fn lemma_last_of_rank_found(ts: Seq<Seq<char>>, k: int)
    ensures
        match last_of_rank(ts, k) {
            Some(t) => exists|i: int| 0 <= i < ts.len() && #[trigger] ts[i] == t && key_rank(t) == k,
            None => forall|i: int| 0 <= i < ts.len() ==> key_rank(#[trigger] ts[i]) != k,
        },
    decreases ts.len(),
{
    if ts.len() > 0 {
        let rest = ts.drop_last();
        lemma_last_of_rank_found(rest, k);
        if key_rank(ts.last()) == k {
            assert(ts[ts.len() - 1] == ts.last());
        } else {
            match last_of_rank(rest, k) {
                Some(t) => {
                    let i = choose|i: int| 0 <= i < rest.len() && #[trigger] rest[i] == t && key_rank(t) == k;
                    assert(ts[i] == rest[i]);
                },
                None => {
                    assert forall|i: int| 0 <= i < ts.len() implies key_rank(#[trigger] ts[i]) != k by {
                        if i < rest.len() {
                            assert(ts[i] == rest[i]);
                        }
                    }
                },
            }
        }
    }
}

/// With at most one token of key `k`, that token is the one `last_of_rank`
/// finds.
proof fn lemma_last_of_rank_unique(ts: Seq<Seq<char>>, k: int, i: int)
    requires
        at_most_one(ts, k),
        0 <= i < ts.len(),
        key_rank(ts[i]) == k,
    ensures
        last_of_rank(ts, k) == Some(ts[i]),
{
    lemma_last_of_rank_found(ts, k);
    match last_of_rank(ts, k) {
        Some(t) => {
            let j = choose|j: int| 0 <= j < ts.len() && #[trigger] ts[j] == t && key_rank(t) == k;
            assert(i == j);
        },
        None => {
            assert(key_rank(ts[i]) != k);
        },
    }
}

/// For tokens with unique keys, reading them in order gives `fields_from`.
proof fn lemma_fields_from(ts: Seq<Seq<char>>)
    requires
        unique_keys(ts),
    ensures
        fields_after(ts) == fields_from(ts),
    decreases ts.len(),
{
    if ts.len() > 0 {
        let rest = ts.drop_last();
        let n = ts.len() - 1;
        assert forall|k: int| 1 <= k <= 4 implies at_most_one(rest, k) by {
            assert forall|i: int, j: int|
                0 <= i < rest.len() && 0 <= j < rest.len() && key_rank(#[trigger] rest[i]) == k
                    && key_rank(#[trigger] rest[j]) == k implies i == j by {
                assert(rest[i] == ts[i] && rest[j] == ts[j]);
            }
        }
        lemma_fields_from(rest);
        let r = key_rank(ts.last());
        assert(ts[n] == ts.last());
        if 1 <= r <= 4 {
            lemma_last_of_rank_found(rest, r);
            if last_of_rank(rest, r) is Some {
                let t = last_of_rank(rest, r)->0;
                let i = choose|i: int| 0 <= i < rest.len() && #[trigger] rest[i] == t && key_rank(t) == r;
                assert(ts[i] == rest[i]);
                assert(i == n);
            }
        }
    }
}

/// `w` holds no whitespace character.
pub open spec fn no_ws(w: Seq<char>) -> bool {
    forall|k: int| 0 <= k < w.len() ==> !is_ws(#[trigger] w[k])
}

/// Some token of `ts` holds `w`.
pub open spec fn in_some_token(ts: Seq<Seq<char>>, w: Seq<char>) -> bool {
    exists|i: int| 0 <= i < ts.len() && has_infix(#[trigger] ts[i], w)
}

/// `s` ends with `w`.
pub open spec fn ends_with(s: Seq<char>, w: Seq<char>) -> bool {
    w.len() <= s.len() && s.subrange(s.len() - w.len(), s.len() as int) == w
}

/// An occurrence in `s` plus one character is an old one or one at the end.
proof fn lemma_infix_push(s: Seq<char>, c: char, w: Seq<char>)
    requires
        w.len() > 0,
    ensures
        has_infix(s.push(c), w) == (has_infix(s, w) || ends_with(s.push(c), w)),
{
    let t = s.push(c);
    if has_infix(s, w) {
        let i = choose|i: int| 0 <= i && i + w.len() <= s.len() && #[trigger] s.subrange(i, i + w.len()) == w;
        assert(t.subrange(i, i + w.len()) =~= s.subrange(i, i + w.len()));
    }
    if ends_with(t, w) {
        let i = t.len() - w.len();
        assert(t.subrange(i, i + w.len()) == w);
    }
    if has_infix(t, w) {
        let i = choose|i: int| 0 <= i && i + w.len() <= t.len() && #[trigger] t.subrange(i, i + w.len()) == w;
        if i + w.len() <= s.len() {
            assert(s.subrange(i, i + w.len()) =~= t.subrange(i, i + w.len()));
        } else {
            assert(i == t.len() - w.len());
        }
    }
}

/// Whitespace tokenising keeps every occurrence of a word without
/// whitespace: the open token is the trailing run of non-whitespace, and an
/// occurrence lies in a finished token or in it.
proof fn lemma_scan_infix(s: Seq<char>, w: Seq<char>)
    requires
        w.len() > 0,
        no_ws(w),
    ensures
        ws_scan(s).1.len() <= s.len(),
        ws_scan(s).1 == s.subrange(s.len() - ws_scan(s).1.len(), s.len() as int),
        no_ws(ws_scan(s).1),
        ws_scan(s).1.len() < s.len() ==> is_ws(s[s.len() - ws_scan(s).1.len() - 1]),
        has_infix(s, w) == (in_some_token(ws_scan(s).0, w) || has_infix(ws_scan(s).1, w)),
    decreases s.len(),
{
    if s.len() == 0 {
        assert(s.subrange(0, 0) =~= ws_scan(s).1);
    } else {
        let p = s.drop_last();
        let c = s.last();
        assert(p.push(c) =~= s);
        lemma_scan_infix(p, w);
        lemma_infix_push(p, c, w);
        let toks = ws_scan(p).0;
        let cur = ws_scan(p).1;
        if is_ws(c) {
            if ends_with(s, w) {
                assert(s.subrange(s.len() - w.len(), s.len() as int)[w.len() - 1] == s[s.len() - 1]);
                assert(!is_ws(w[w.len() - 1]));
            }
            if cur.len() > 0 {
                let nt = toks.push(cur);
                if in_some_token(toks, w) {
                    let i = choose|i: int| 0 <= i < toks.len() && has_infix(#[trigger] toks[i], w);
                    assert(nt[i] == toks[i]);
                }
                if has_infix(cur, w) {
                    assert(nt[toks.len() as int] == cur);
                }
                if in_some_token(nt, w) {
                    let i = choose|i: int| 0 <= i < nt.len() && has_infix(#[trigger] nt[i], w);
                    if i < toks.len() {
                        assert(nt[i] == toks[i]);
                    }
                }
            }
            assert(s.subrange(s.len() as int, s.len() as int) =~= Seq::<char>::empty());
        } else {
            let nc = cur.push(c);
            assert(nc =~= s.subrange(s.len() - nc.len(), s.len() as int));
            assert forall|k: int| 0 <= k < nc.len() implies !is_ws(#[trigger] nc[k]) by {
                if k < cur.len() {
                    assert(nc[k] == cur[k]);
                }
            }
            if nc.len() < s.len() {
                assert(s[s.len() - nc.len() - 1] == p[p.len() - cur.len() - 1]);
            }
            lemma_infix_push(cur, c, w);
            if w.len() <= nc.len() {
                assert(s.subrange(s.len() - w.len(), s.len() as int) =~= nc.subrange(
                    nc.len() - w.len(),
                    nc.len() as int,
                ));
            } else if ends_with(s, w) {
                let k = s.len() - nc.len() - 1;
                let b = s.len() - w.len();
                assert(s.subrange(b, s.len() as int)[k - b] == s[k]);
                assert(!is_ws(w[k - b]));
            }
        }
    }
}

/// A word without whitespace occurs in `s` exactly when it occurs in one of
/// its whitespace tokens.
proof fn lemma_word_in_tokens(s: Seq<char>, w: Seq<char>)
    requires
        w.len() > 0,
        no_ws(w),
    ensures
        has_infix(s, w) == in_some_token(ws_tokens(s), w),
{
    lemma_scan_infix(s, w);
    let toks = ws_scan(s).0;
    let cur = ws_scan(s).1;
    if cur.len() > 0 {
        let nt = toks.push(cur);
        if in_some_token(toks, w) {
            let i = choose|i: int| 0 <= i < toks.len() && has_infix(#[trigger] toks[i], w);
            assert(nt[i] == toks[i]);
        }
        if has_infix(cur, w) {
            assert(nt[toks.len() as int] == cur);
        }
        if in_some_token(nt, w) {
            let i = choose|i: int| 0 <= i < nt.len() && has_infix(#[trigger] nt[i], w);
            if i < toks.len() {
                assert(nt[i] == toks[i]);
            }
        }
    }
}

/// A permutation of tokens keeps whether some token holds `w`.
proof fn lemma_in_some_token_perm(a: Seq<Seq<char>>, b: Seq<Seq<char>>, w: Seq<char>)
    requires
        a.to_multiset() == b.to_multiset(),
    ensures
        in_some_token(a, w) ==> in_some_token(b, w),
{
    if in_some_token(a, w) {
        let i = choose|i: int| 0 <= i < a.len() && has_infix(#[trigger] a[i], w);
        a.to_multiset_ensures();
        b.to_multiset_ensures();
        assert(a.contains(a[i]));
        assert(a.to_multiset().count(a[i]) > 0);
        assert(b.to_multiset().count(a[i]) > 0);
        assert(b.contains(a[i]));
        let j = choose|j: int| 0 <= j < b.len() && b[j] == a[i];
        assert(has_infix(b[j], w));
    }
}

/// The order of the tokens within a clause does not matter when no key
/// occurs twice: two clauses whose tokens are the same multiset, each key in
/// at most one token, describe the same display.
pub proof fn lemma_token_permutation(c1: Seq<char>, c2: Seq<char>)
    requires
        ws_tokens(c1).to_multiset() == ws_tokens(c2).to_multiset(),
        unique_keys(ws_tokens(c1)),
        unique_keys(ws_tokens(c2)),
    ensures
        display_of(c1) == display_of(c2),
{
    let t1 = ws_tokens(c1);
    let t2 = ws_tokens(c2);
    let w = disabled_word();
    reveal_strlit("disabled");
    assert(w =~= seq!['d', 'i', 's', 'a', 'b', 'l', 'e', 'd']);
    assert(no_ws(w));
    lemma_word_in_tokens(c1, w);
    lemma_word_in_tokens(c2, w);
    lemma_in_some_token_perm(t1, t2, w);
    lemma_in_some_token_perm(t2, t1, w);
    lemma_fields_from(t1);
    lemma_fields_from(t2);
    assert forall|k: int| 1 <= k <= 4 implies last_of_rank(t1, k) == last_of_rank(t2, k) by {
        lemma_same_last_token(t1, t2, k);
        lemma_same_last_token(t2, t1, k);
    }
}

/// Where `a` has a token of key `k`, a permutation `b` of `a` with at most
/// one such token has the same one.
proof fn lemma_same_last_token(a: Seq<Seq<char>>, b: Seq<Seq<char>>, k: int)
    requires
        a.to_multiset() == b.to_multiset(),
        at_most_one(b, k),
    ensures
        last_of_rank(a, k) is Some ==> last_of_rank(b, k) == last_of_rank(a, k),
{
    lemma_last_of_rank_found(a, k);
    if last_of_rank(a, k) is Some {
        let t = last_of_rank(a, k)->0;
        let i = choose|i: int| 0 <= i < a.len() && #[trigger] a[i] == t && key_rank(t) == k;
        a.to_multiset_ensures();
        b.to_multiset_ensures();
        assert(a.contains(t));
        assert(b.to_multiset().count(t) > 0);
        assert(b.contains(t));
        let j = choose|j: int| 0 <= j < b.len() && b[j] == t;
        lemma_last_of_rank_unique(b, k, j);
    }
}

/// Segments are read independently: the displays of a line's segments are
/// those of its first segments followed by those of the rest, so each
/// quoted segment contributes `display_of` of itself alone.
pub proof fn lemma_segments_independent(x: Seq<Seq<char>>, y: Seq<Seq<char>>)
    ensures
        part_displays(x + y) == part_displays(x) + part_displays(y),
    decreases y.len(),
{
    if y.len() == 0 {
        assert(x + y =~= x);
        assert(part_displays(x) + part_displays(y) =~= part_displays(x));
    } else {
        lemma_segments_independent(x, y.drop_last());
        assert((x + y).drop_last() =~= x + y.drop_last());
        assert((x + y).last() == y.last());
        let p = y.last();
        if is_candidate(p) && display_of(p) is Some {
            assert(part_displays(x) + part_displays(y) =~= (part_displays(x) + part_displays(
                y.drop_last(),
            )).push(display_of(p)->0));
        }
    }
}

/// A line whose quoted segments are `s1` and `s2`, each naming an id, and
/// whose unquoted parts hold no `id:`, yields exactly the display of `s1`
/// and then that of `s2`, each read from its own segment alone.
pub proof fn lemma_two_segments(
    l: Seq<char>,
    u0: Seq<char>,
    s1: Seq<char>,
    u1: Seq<char>,
    s2: Seq<char>,
    u2: Seq<char>,
)
    requires
        split_on(l, '"') == seq![u0, s1, u1, s2, u2],
        !has_infix(u0, id_key()),
        !has_infix(u1, id_key()),
        !has_infix(u2, id_key()),
        has_infix(s1, id_key()),
        has_infix(s2, id_key()),
        display_of(s1) is Some,
        display_of(s2) is Some,
    ensures
        line_displays(l) == seq![display_of(s1)->0, display_of(s2)->0],
{
    let ps = seq![u0, s1, u1, s2, u2];
    assert(ps.drop_last() =~= seq![u0, s1, u1, s2]);
    assert(seq![u0, s1, u1, s2].drop_last() =~= seq![u0, s1, u1]);
    assert(seq![u0, s1, u1].drop_last() =~= seq![u0, s1]);
    assert(seq![u0, s1].drop_last() =~= seq![u0]);
    assert(seq![u0].drop_last() =~= Seq::<Seq<char>>::empty());
    assert(part_displays(Seq::<Seq<char>>::empty()) =~= Seq::<DisplayView>::empty());
    assert(seq![u0].last() == u0);
    assert(seq![u0, s1].last() == s1);
    assert(seq![u0, s1, u1].last() == u1);
    assert(seq![u0, s1, u1, s2].last() == s2);
    assert(ps.last() == u2);
    assert(!is_candidate(u0) && !is_candidate(u1) && !is_candidate(u2));
    assert(part_displays(seq![u0]) =~= Seq::<DisplayView>::empty());
    assert(part_displays(seq![u0, s1]) =~= seq![display_of(s1)->0]);
    assert(part_displays(seq![u0, s1, u1]) =~= seq![display_of(s1)->0]);
    assert(part_displays(seq![u0, s1, u1, s2]) =~= seq![display_of(s1)->0, display_of(s2)->0]);
    assert(part_displays(ps) =~= seq![display_of(s1)->0, display_of(s2)->0]);
}

/// Whether some line of `lines` holds the marker.
pub open spec fn has_marker_line(lines: Seq<Seq<char>>) -> bool {
    exists|i: int| 0 <= i < lines.len() && has_infix(#[trigger] lines[i], marker())
}

/// No line after a marker line is an invocation of the tool.
pub open spec fn only_examples(lines: Seq<Seq<char>>) -> bool {
    forall|i: int, j: int|
        0 <= i < j < lines.len() && has_infix(#[trigger] lines[i], marker()) ==> !is_invocation(
            #[trigger] lines[j],
        )
}

/// Scanning lines in which no invocation follows a marker collects no
/// display, and records the marker exactly when a line holds it.
proof fn lemma_scan_collects_nothing(lines: Seq<Seq<char>>)
    requires
        only_examples(lines),
    ensures
        report_scan(lines).1.len() == 0,
        report_scan(lines).0 == has_marker_line(lines),
    decreases lines.len(),
{
    if lines.len() > 0 {
        let rest = lines.drop_last();
        let l = lines.last();
        assert forall|i: int, j: int|
            0 <= i < j < rest.len() && has_infix(#[trigger] rest[i], marker()) implies !is_invocation(
            #[trigger] rest[j],
        ) by {
            assert(rest[i] == lines[i] && rest[j] == lines[j]);
        }
        lemma_scan_collects_nothing(rest);
        if has_marker_line(rest) {
            let i = choose|i: int| 0 <= i < rest.len() && has_infix(#[trigger] rest[i], marker());
            assert(lines[i] == rest[i]);
            assert(has_infix(lines[i], marker()));
            assert(has_marker_line(lines));
            if !has_infix(l, marker()) {
                assert(!is_invocation(lines[lines.len() - 1]));
            }
        } else {
            if has_marker_line(lines) {
                let i = choose|i: int| 0 <= i < lines.len() && has_infix(#[trigger] lines[i], marker());
                if i < rest.len() {
                    assert(rest[i] == lines[i]);
                } else {
                    assert(has_infix(l, marker()));
                }
            }
            if has_infix(l, marker()) {
                assert(has_infix(lines[lines.len() - 1], marker()));
            }
        }
    }
}

/// A report made only of examples, in which no line after a marker line is
/// an invocation of the tool (as when no line holds the marker), describes
/// no display: parsing it fails.
pub proof fn lemma_examples_only(text: Seq<char>)
    requires
        only_examples(split_on(text, '\n')),
    ensures
        report_displays(text).len() == 0,
{
    lemma_scan_collects_nothing(split_on(text, '\n'));
}

} // verus!
