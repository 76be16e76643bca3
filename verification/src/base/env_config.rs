//! Simple config file loader.
//!
//! Loads KEY=VALUE pairs from the text of a file into a [`FractureConfig`].
//! Binaries use `config.get("KEY")` with CLI flag fallback.
//!
//! File format:
//! - One KEY=VALUE per line
//! - Lines starting with `#` are comments
//! - Empty lines are ignored
//! - Values can be optionally quoted with double quotes
use crate::base::text::{chars_of, same_text};
use vstd::prelude::*;
use vstd::string::StrSliceExecFns;

verus! {

/// The characters that count as white space.
pub open spec fn is_space(c: char) -> bool {
    let n = c as int;
    ||| 0x09 <= n <= 0x0d
    ||| n == 0x20
    ||| n == 0x85
    ||| n == 0xa0
    ||| n == 0x1680
    ||| 0x2000 <= n <= 0x200a
    ||| n == 0x2028
    ||| n == 0x2029
    ||| n == 0x202f
    ||| n == 0x205f
    ||| n == 0x3000
}

fn space(c: char) -> (res: bool)
    ensures
        res == is_space(c),
{
    ('\u{9}' <= c && c <= '\u{d}') || c == ' ' || c == '\u{85}' || c == '\u{a0}' || c == '\u{1680}'
        || ('\u{2000}' <= c && c <= '\u{200a}') || c == '\u{2028}' || c == '\u{2029}' || c
        == '\u{202f}' || c == '\u{205f}' || c == '\u{3000}'
}

/// Without white space in front.
pub open spec fn trimmed_front(s: Seq<char>) -> Seq<char>
    decreases s.len(),
{
    if s.len() > 0 && is_space(s[0]) {
        trimmed_front(s.skip(1))
    } else {
        s
    }
}

/// Without white space at the end.
pub open spec fn trimmed_back(s: Seq<char>) -> Seq<char>
    decreases s.len(),
{
    if s.len() > 0 && is_space(s.last()) {
        trimmed_back(s.drop_last())
    } else {
        s
    }
}

/// Without white space in front and at the end.
pub open spec fn trimmed(s: Seq<char>) -> Seq<char> {
    trimmed_back(trimmed_front(s))
}

/// Where the first `c` stands, or the length where there is none.
pub open spec fn first_of(s: Seq<char>, c: char) -> int
    decreases s.len(),
{
    if s.len() == 0 || s[0] == c {
        0
    } else {
        1 + first_of(s.skip(1), c)
    }
}

/// A value without the double quotes around it, if it has them.
pub open spec fn unquoted(s: Seq<char>) -> Seq<char> {
    if s.len() >= 2 && s[0] == '"' && s.last() == '"' {
        s.subrange(1, s.len() - 1)
    } else {
        s
    }
}

/// The key and the value that a line sets, if it sets one.
pub open spec fn entry(line: Seq<char>) -> Option<(Seq<char>, Seq<char>)> {
    let t = trimmed(line);
    let i = first_of(t, '=');
    if t.len() == 0 || t[0] == '#' || i >= t.len() {
        None
    } else {
        Some((trimmed(t.take(i)), unquoted(trimmed(t.skip(i + 1)))))
    }
}

/// `m` with what a line sets.
pub open spec fn with_line(m: Map<Seq<char>, Seq<char>>, line: Seq<char>) -> Map<
    Seq<char>,
    Seq<char>,
> {
    match entry(line) {
        Some((key, value)) => m.insert(key, value),
        None => m,
    }
}

/// `m` with what the lines of a text set, in order: of several lines for one key the last
/// one counts.
pub open spec fn with_text(m: Map<Seq<char>, Seq<char>>, text: Seq<char>) -> Map<
    Seq<char>,
    Seq<char>,
>
    decreases text.len(),
{
    let i = first_of(text, '\n');
    if i < 0 || i >= text.len() {
        with_line(m, text)
    } else {
        with_text(with_line(m, text.take(i)), text.skip(i + 1))
    }
}

/// The values of pairs of keys and values, in order: the last pair of a key counts.
pub open spec fn values_of(pairs: Seq<(String, String)>) -> Map<Seq<char>, Seq<char>>
    decreases pairs.len(),
{
    if pairs.len() == 0 {
        Map::empty()
    } else {
        values_of(pairs.drop_last()).insert(pairs.last().0@, pairs.last().1@)
    }
}

/// Loaded config values from a fracture.env file.
#[derive(Debug)]
pub struct FractureConfig {
    /// Keys and values; of several for one key the last one counts.
    pairs: Vec<(String, String)>,
}

impl Default for FractureConfig {
    fn default() -> (res: Self)
        ensures
            res.values() == Map::<Seq<char>, Seq<char>>::empty(),
    {
        FractureConfig { pairs: Vec::new() }
    }
}

/// The argument that follows the first `flag`.
pub open spec fn flag_value(args: Seq<String>, flag: Seq<char>) -> Option<Seq<char>>
    decreases args.len(),
{
    if args.len() == 0 {
        None
    } else if args[0]@ == flag {
        if args.len() > 1 {
            Some(args[1]@)
        } else {
            None
        }
    } else {
        flag_value(args.skip(1), flag)
    }
}

/// The argument that follows the first `flag`.
fn find_flag<'a>(args: &'a [String], flag: &str) -> (res: Option<&'a str>)
    ensures
        (match res {
            Some(s) => Some(s@),
            None => None,
        }) == flag_value(args@, flag@),
{
    let mut i: usize = 0;
    assert(args@.skip(0) =~= args@);
    while i < args.len()
        invariant
            i <= args@.len(),
            flag_value(args@, flag@) == flag_value(args@.skip(i as int), flag@),
        decreases args@.len() - i,
    {
        assert(args@.skip(i as int)[0] == args@[i as int]);
        if same_text(args[i].as_str(), flag) {
            if i < args.len() - 1 {
                assert(args@.skip(i as int)[1] == args@[i + 1]);
                return Some(args[i + 1].as_str());
            }
            return None;
        }
        assert(args@.skip(i as int).skip(1) =~= args@.skip(i + 1));
        i = i + 1;
    }
    None
}

/// `flag` is among the arguments.
pub open spec fn flag_given(args: Seq<String>, flag: Seq<char>) -> bool {
    exists|i: int| 0 <= i < args.len() && (#[trigger] args[i])@ == flag
}

impl FractureConfig {
    /// The values by key.
    pub closed spec fn values(&self) -> Map<Seq<char>, Seq<char>> {
        values_of(self.pairs@)
    }

    /// What [`FractureConfig::get`] gives.
    pub open spec fn value(&self, key: Seq<char>) -> Option<Seq<char>> {
        if self.values().contains_key(key) {
            Some(self.values()[key])
        } else {
            None
        }
    }

    /// Get a config value by key.
    pub fn get(&self, key: &str) -> (res: Option<&str>)
        ensures
            (match res {
                Some(s) => Some(s@),
                None => None,
            }) == self.value(key@),
    {
        let mut i: usize = self.pairs.len();
        assert(self.pairs@.take(i as int) =~= self.pairs@);
        while i > 0
            invariant
                i <= self.pairs@.len(),
                self.values().contains_key(key@) == values_of(
                    self.pairs@.take(i as int),
                ).contains_key(key@),
                self.values().contains_key(key@) ==> self.values()[key@] == values_of(
                    self.pairs@.take(i as int),
                )[key@],
            decreases i,
        {
            i = i - 1;
            assert(self.pairs@.take(i + 1).drop_last() =~= self.pairs@.take(i as int));
            if same_text(self.pairs[i].0.as_str(), key) {
                return Some(self.pairs[i].1.as_str());
            }
        }
        None
    }

    /// Get a config value, falling back to a CLI flag value.
    /// Checks: config file → CLI flag.
    pub fn get_or_flag<'a>(&'a self, key: &str, args: &'a [String], flag: &str) -> (res: Option<
        &'a str,
    >)
        ensures
            (match res {
                Some(s) => Some(s@),
                None => None,
            }) == (match self.value(key@) {
                Some(v) => Some(v),
                None => flag_value(args@, flag@),
            }),
    {
        match self.get(key) {
            Some(v) => Some(v),
            None => find_flag(args, flag),
        }
    }

    /// Check if a boolean flag is set (either in config or CLI args).
    pub fn has_flag(&self, key: &str, args: &[String], flag: &str) -> (res: bool)
        ensures
            res == (self.value(key@) == Some("true"@) || self.value(key@) == Some("1"@)
                || flag_given(args@, flag@)),
    {
        if let Some(v) = self.get(key) {
            if same_text(v, "true") || same_text(v, "1") {
                return true;
            }
        }
        let mut i: usize = 0;
        while i < args.len()
            invariant
                i <= args@.len(),
                forall|j: int| 0 <= j < i ==> (#[trigger] args@[j])@ != flag@,
            decreases args@.len() - i,
        {
            if same_text(args[i].as_str(), flag) {
                assert(args@[i as int]@ == flag@);
                return true;
            }
            i = i + 1;
        }
        false
    }
}

/// Where the text `cs[a..b]` lies without the white space around it.
fn trim_range(cs: &Vec<char>, a: usize, b: usize) -> (res: (usize, usize))
    requires
        a <= b <= cs@.len(),
    ensures
        a <= res.0 <= res.1 <= b,
        cs@.subrange(res.0 as int, res.1 as int) == trimmed(cs@.subrange(a as int, b as int)),
{
    let mut i: usize = a;
    let ghost s = cs@.subrange(a as int, b as int);
    while i < b && space(cs[i])
        invariant
            a <= i <= b <= cs@.len(),
            trimmed_front(s) == trimmed_front(cs@.subrange(i as int, b as int)),
        ensures
            i < b ==> !is_space(cs@[i as int]),
        decreases b - i,
    {
        assert(cs@.subrange(i as int, b as int).skip(1) =~= cs@.subrange(i + 1, b as int));
        i = i + 1;
    }
    let ghost f = cs@.subrange(i as int, b as int);
    assert(trimmed_front(s) == f);
    let mut j: usize = b;
    while j > i && space(cs[j - 1])
        invariant
            a <= i <= j <= b <= cs@.len(),
            trimmed_back(f) == trimmed_back(cs@.subrange(i as int, j as int)),
        ensures
            j > i ==> !is_space(cs@[j - 1]),
        decreases j - i,
    {
        assert(cs@.subrange(i as int, j as int).drop_last() =~= cs@.subrange(i as int, j - 1));
        j = j - 1;
    }
    (i, j)
}

/// Where the first `c` stands in `cs[a..b]`, or `b` where there is none.
fn find_char(cs: &Vec<char>, a: usize, b: usize, c: char) -> (res: usize)
    requires
        a <= b <= cs@.len(),
    ensures
        a <= res <= b,
        res - a == first_of(cs@.subrange(a as int, b as int), c),
{
    let mut i: usize = a;
    let ghost s = cs@.subrange(a as int, b as int);
    while i < b && cs[i] != c
        invariant
            a <= i <= b <= cs@.len(),
            first_of(s, c) == (i - a) + first_of(cs@.subrange(i as int, b as int), c),
        ensures
            i < b ==> cs@[i as int] == c,
        decreases b - i,
    {
        assert(cs@.subrange(i as int, b as int).skip(1) =~= cs@.subrange(i + 1, b as int));
        i = i + 1;
    }
    i
}

/// The key and the value that the line `cs[a..b]` of `contents` sets.
fn parse_line(contents: &str, cs: &Vec<char>, a: usize, b: usize) -> (res: Option<
    (String, String),
>)
    requires
        cs@ == contents@,
        a <= b <= cs@.len(),
    ensures
        (match res {
            Some(p) => Some((p.0@, p.1@)),
            None => None,
        }) == entry(cs@.subrange(a as int, b as int)),
{
    let (s, e) = trim_range(cs, a, b);
    let ghost t = cs@.subrange(s as int, e as int);
    if s == e || cs[s] == '#' {
        return None;
    }
    let i: usize = find_char(cs, s, e, '=');
    if i == e {
        return None;
    }
    assert(t.take(i - s) =~= cs@.subrange(s as int, i as int));
    assert(t.skip(i - s + 1) =~= cs@.subrange(i + 1, e as int));
    let (ks, ke) = trim_range(cs, s, i);
    let (vs, ve) = trim_range(cs, i + 1, e);
    let ghost v = cs@.subrange(vs as int, ve as int);
    let key: String = contents.substring_char(ks, ke).to_owned();
    let value: String = if ve - vs >= 2 && cs[vs] == '"' && cs[ve - 1] == '"' {
        assert(v.subrange(1, v.len() - 1) =~= cs@.subrange(vs + 1, ve - 1));
        contents.substring_char(vs + 1, ve - 1).to_owned()
    } else {
        contents.substring_char(vs, ve).to_owned()
    };
    Some((key, value))
}

/// Parse the text of a config file.
pub fn parse_env_file(contents: &str) -> (res: FractureConfig)
    ensures
        res.values() == with_text(Map::empty(), contents@),
{
    let cs = chars_of(contents);
    let n: usize = cs.len();
    let mut pairs: Vec<(String, String)> = Vec::new();
    let mut at: usize = 0;
    let ghost all = with_text(Map::empty(), contents@);
    assert(cs@.subrange(0, n as int) =~= contents@);
    loop
        invariant
            at <= n == cs@.len(),
            cs@ == contents@,
            with_text(values_of(pairs@), cs@.subrange(at as int, n as int)) == all,
        ensures
            values_of(pairs@) == all,
        decreases n - at,
    {
        let ghost rest = cs@.subrange(at as int, n as int);
        let ghost before = values_of(pairs@);
        let end: usize = find_char(&cs, at, n, '\n');
        assert(rest.take(end - at) =~= cs@.subrange(at as int, end as int));
        if let Some(pair) = parse_line(contents, &cs, at, end) {
            let ghost was = pairs@;
            pairs.push(pair);
            assert(pairs@.drop_last() =~= was);
        }
        assert(values_of(pairs@) == with_line(before, cs@.subrange(at as int, end as int)));
        if end == n {
            break;
        }
        assert(rest.skip(end - at + 1) =~= cs@.subrange(end + 1, n as int));
        at = end + 1;
    }
    FractureConfig { pairs }
}

/// Which config file to load: the one that `--config` names, else `fracture.env` in the
/// current directory if there is one, else the one of the system if there is one.
pub fn config_path(args: &[String], local_exists: bool, system_exists: bool) -> (res: Option<
    String,
>)
    ensures
        (match res {
            Some(p) => Some(p@),
            None => None,
        }) == (match flag_value(args@, "--config"@) {
            Some(p) => Some(p),
            None => if local_exists {
                Some("fracture.env"@)
            } else if system_exists {
                Some("/etc/fracture/fracture.env"@)
            } else {
                None
            },
        }),
{
    match find_flag(args, "--config") {
        Some(p) => Some(p.to_owned()),
        None => if local_exists {
            Some("fracture.env".to_owned())
        } else if system_exists {
            Some("/etc/fracture/fracture.env".to_owned())
        } else {
            None
        },
    }
}

/// The config of the file at `path`, given what was read from it: no values and no path
/// where there is no file, or where it could not be read.
pub fn config_from(path: Option<String>, contents: Option<&str>) -> (res: (
    FractureConfig,
    Option<String>,
))
    ensures
        path is Some && contents is Some ==> res.0.values() == with_text(
            Map::empty(),
            contents->0@,
        ) && res.1 == path,
        path is None || contents is None ==> res.0.values() == Map::<Seq<char>, Seq<char>>::empty()
            && res.1 is None,
{
    match (path, contents) {
        (Some(p), Some(c)) => (parse_env_file(c), Some(p)),
        _ => (FractureConfig::default(), None),
    }
}

proof fn first_of_joined(a: Seq<char>, b: Seq<char>, c: char)
    ensures
        0 <= first_of(a, c) <= a.len(),
        first_of(a, c) < a.len() ==> first_of(a + b, c) == first_of(a, c),
        first_of(a, c) == a.len() && b.len() > 0 && b[0] == c ==> first_of(a + b, c) == a.len(),
    decreases a.len(),
{
    if a.len() == 0 {
        assert(a + b =~= b);
    } else if a[0] != c {
        first_of_joined(a.skip(1), b, c);
        assert((a + b).skip(1) =~= a.skip(1) + b);
    }
}

/// A file is read line by line: what follows a line break comes on top of what stands
/// before it.
pub proof fn lines_add_up(m: Map<Seq<char>, Seq<char>>, a: Seq<char>, b: Seq<char>)
    ensures
        with_text(m, a + seq!['\n'] + b) == with_text(with_text(m, a), b),
    decreases a.len(),
{
    let nl = seq!['\n'];
    let tail = nl + b;
    let whole = a + nl + b;
    let i = first_of(a, '\n');
    assert(whole =~= a + tail);
    first_of_joined(a, tail, '\n');
    if i < a.len() {
        assert(whole.take(i) =~= a.take(i));
        assert(whole.skip(i + 1) =~= a.skip(i + 1) + nl + b);
        lines_add_up(with_line(m, a.take(i)), a.skip(i + 1), b);
    } else {
        assert(whole.take(i) =~= a);
        assert(whole.skip(i + 1) =~= b);
    }
}

/// Comments and blank lines set nothing.
pub proof fn comments_set_nothing(m: Map<Seq<char>, Seq<char>>, line: Seq<char>)
    requires
        trimmed(line).len() == 0 || trimmed(line)[0] == '#',
    ensures
        with_line(m, line) == m,
{
}

} // verus!
