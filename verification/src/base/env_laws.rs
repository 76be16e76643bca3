//! What lines of a configuration file and flags say.
use crate::base::env_config::{
    entry, first_of, flag_given, flag_value, is_space, trimmed, trimmed_back, trimmed_front,
    unquoted, with_line,
};
use vstd::prelude::*;

verus! {

/// A text that does not begin or end with space.
pub open spec fn is_tight(s: Seq<char>) -> bool {
    s.len() > 0 ==> !is_space(s[0]) && !is_space(s.last())
}

/// Nothing but space.
pub open spec fn is_blank(s: Seq<char>) -> bool {
    forall|i: int| 0 <= i < s.len() ==> is_space(#[trigger] s[i])
}

proof fn front_is_trimmed(a: Seq<char>, s: Seq<char>)
    requires
        is_blank(a),
    ensures
        trimmed_front(a + s) == trimmed_front(s),
    decreases a.len(),
{
    if a.len() > 0 {
        assert((a + s)[0] == a[0]);
        assert((a + s).skip(1) =~= a.skip(1) + s);
        assert(is_blank(a.skip(1))) by {
            assert forall|i: int| 0 <= i < a.skip(1).len() implies is_space(
                #[trigger] a.skip(1)[i],
            ) by {
                assert(a[i + 1] == a.skip(1)[i]);
            }
        }
        front_is_trimmed(a.skip(1), s);
    } else {
        assert(a + s =~= s);
    }
}

proof fn back_is_trimmed(s: Seq<char>, b: Seq<char>)
    requires
        is_blank(b),
    ensures
        trimmed_back(s + b) == trimmed_back(s),
    decreases b.len(),
{
    if b.len() > 0 {
        assert((s + b).last() == b.last());
        assert(b[b.len() - 1] == b.last());
        assert((s + b).drop_last() =~= s + b.drop_last());
        assert(is_blank(b.drop_last())) by {
            assert forall|i: int| 0 <= i < b.drop_last().len() implies is_space(
                #[trigger] b.drop_last()[i],
            ) by {
                assert(b[i] == b.drop_last()[i]);
            }
        }
        back_is_trimmed(s, b.drop_last());
    } else {
        assert(s + b =~= s);
    }
}

/// Space around a text does not count, and all of the text does.
pub proof fn space_around_is_trimmed(a: Seq<char>, s: Seq<char>, b: Seq<char>)
    requires
        is_blank(a),
        is_tight(s),
        is_blank(b),
    ensures
        trimmed(a + s + b) == s,
{
    assert(a + s + b =~= a + (s + b));
    front_is_trimmed(a, s + b);
    if s.len() > 0 {
        assert((s + b)[0] == s[0]);
        back_is_trimmed(s, b);
    } else {
        assert(s + b =~= b + s);
        front_is_trimmed(b, s);
    }
}

/// The first place of a character: it stands there, and nowhere before.
pub proof fn first_is_first(s: Seq<char>, c: char)
    ensures
        0 <= first_of(s, c) <= s.len(),
        first_of(s, c) < s.len() ==> s[first_of(s, c)] == c,
        forall|i: int| 0 <= i < first_of(s, c) ==> s[i] != c,
    decreases s.len(),
{
    if s.len() > 0 && s[0] != c {
        first_is_first(s.skip(1), c);
        assert forall|i: int| 0 <= i < first_of(s, c) implies s[i] != c by {
            if i > 0 {
                assert(s.skip(1)[i - 1] == s[i]);
            }
        }
    }
}

/// A line with a name, an equals sign and a value sets the name to the value. Space around the
/// line, the name and the value does not count.
pub proof fn settings_are_read(
    m: Map<Seq<char>, Seq<char>>,
    key: Seq<char>,
    value: Seq<char>,
    spaces: Seq<Seq<char>>,
)
    requires
        key.len() > 0,
        key[0] != '#',
        !key.contains('='),
        is_tight(key),
        value.len() > 0,
        is_tight(value),
        spaces.len() == 4,
        forall|i: int| 0 <= i < 4 ==> is_blank(#[trigger] spaces[i]),
    ensures
        ({
            let line = spaces[0] + key + spaces[1] + seq!['='] + spaces[2] + value + spaces[3];
            with_line(m, line) == m.insert(key, unquoted(value))
        }),
{
    let line = spaces[0] + key + spaces[1] + seq!['='] + spaces[2] + value + spaces[3];
    let t = key + spaces[1] + seq!['='] + spaces[2] + value;
    assert(line =~= spaces[0] + t + spaces[3]);
    assert(is_blank(spaces[0]) && is_blank(spaces[1]) && is_blank(spaces[2]) && is_blank(
        spaces[3],
    ));
    assert(t[0] == key[0]);
    assert(t.last() == value.last());
    space_around_is_trimmed(spaces[0], t, spaces[3]);
    let left = key + spaces[1];
    let i = first_of(t, '=');
    first_is_first(t, '=');
    assert(!is_space('='));
    assert forall|x: int| 0 <= x < left.len() implies t[x] != '=' by {
        assert(t[x] == left[x]);
        if x < key.len() {
            assert(key.contains(key[x]));
        } else {
            assert(is_space(spaces[1][x - key.len()]));
        }
    }
    assert(t[left.len() as int] == '=');
    assert(i == left.len());
    assert(t.take(i) =~= Seq::empty() + key + spaces[1]);
    space_around_is_trimmed(Seq::empty(), key, spaces[1]);
    assert(t.skip(i + 1) =~= spaces[2] + value + Seq::empty());
    space_around_is_trimmed(spaces[2], value, Seq::empty());
    assert(entry(line) == Some((key, unquoted(value))));
}

/// Quotes around a value are taken off, once, and a value without them stays.
pub proof fn quotes_are_taken_off(value: Seq<char>)
    ensures
        unquoted(seq!['"'] + value + seq!['"']) == value,
        value.len() > 0 && value[0] != '"' ==> unquoted(value) == value,
        value.len() > 0 && value.last() != '"' ==> unquoted(value) == value,
{
    let q = seq!['"'] + value + seq!['"'];
    assert(q.subrange(1, q.len() - 1) =~= value);
}

/// A flag has the value that follows its first occurrence.
pub proof fn flags_have_the_next_argument(args: Seq<String>, flag: Seq<char>, i: int)
    requires
        0 <= i < args.len(),
        args[i]@ == flag,
        forall|j: int| 0 <= j < i ==> (#[trigger] args[j])@ != flag,
    ensures
        flag_given(args, flag),
        flag_value(args, flag) == if i + 1 < args.len() {
            Some(args[i + 1]@)
        } else {
            None
        },
    decreases i,
{
    assert(args[i]@ == flag);
    if i > 0 {
        let rest = args.skip(1);
        assert(args[0]@ != flag);
        assert(rest[i - 1] == args[i]);
        assert forall|j: int| 0 <= j < i - 1 implies (#[trigger] rest[j])@ != flag by {
            assert(rest[j] == args[j + 1]);
        }
        flags_have_the_next_argument(rest, flag, i - 1);
        if i + 1 < args.len() {
            assert(rest[i] == args[i + 1]);
        }
    }
}

/// A flag that is not given has no value.
pub proof fn absent_flags_have_no_value(args: Seq<String>, flag: Seq<char>)
    requires
        !flag_given(args, flag),
    ensures
        flag_value(args, flag) is None,
    decreases args.len(),
{
    if args.len() > 0 {
        let rest = args.skip(1);
        assert(args[0]@ != flag);
        assert(!flag_given(rest, flag)) by {
            if flag_given(rest, flag) {
                let i = choose|i: int| 0 <= i < rest.len() && (#[trigger] rest[i])@ == flag;
                assert(args[i + 1]@ == flag);
            }
        }
        absent_flags_have_no_value(rest, flag);
    }
}

} // verus!
