//! How the answer to a `topic_list` call carries the topics: each topic's
//! name, escaped, followed by a newline. In a name, a backslash is written
//! `\\` and a newline `\n`, so every name comes back whole, whatever it
//! holds.

use vstd::prelude::*;

use crate::keyed::keys_of;

verus! {

/// How one character of a name is written.
pub open spec fn escape_char(c: char) -> Seq<char> {
    if c == '\\' {
        seq!['\\', '\\']
    } else if c == '\n' {
        seq!['\\', 'n']
    } else {
        seq![c]
    }
}

/// How a name is written.
pub open spec fn escape(name: Seq<char>) -> Seq<char>
    decreases name.len(),
{
    if name.len() == 0 {
        Seq::empty()
    } else {
        escape(name.drop_last()) + escape_char(name.last())
    }
}

/// The answer that lists `names`, one after another, each escaped and ended
/// by a newline.
pub open spec fn spec_topic_list(names: Seq<Seq<char>>) -> Seq<char>
    decreases names.len(),
{
    if names.len() == 0 {
        Seq::empty()
    } else {
        escape(names[0]) + seq!['\n'] + spec_topic_list(names.drop_first())
    }
}

/// The names in `text`, when `current` has been read of the first one and
/// `escaped` says whether a backslash came last: a backslash takes the next
/// character as it is (`n` standing for a newline), a newline ends a name,
/// and text after the last newline is a last name (a backslash at the very
/// end standing for itself).
pub open spec fn names_from(text: Seq<char>, current: Seq<char>, escaped: bool) -> Seq<Seq<char>>
    decreases text.len(),
{
    if text.len() == 0 {
        if escaped {
            seq![current.push('\\')]
        } else if current.len() == 0 {
            Seq::empty()
        } else {
            seq![current]
        }
    } else if escaped {
        names_from(
            text.drop_first(),
            current.push(
                if text[0] == 'n' {
                    '\n'
                } else {
                    text[0]
                },
            ),
            false,
        )
    } else if text[0] == '\\' {
        names_from(text.drop_first(), current, true)
    } else if text[0] == '\n' {
        seq![current] + names_from(text.drop_first(), Seq::empty(), false)
    } else {
        names_from(text.drop_first(), current.push(text[0]), false)
    }
}

/// The topics that an answer names.
pub open spec fn spec_parse_topic_list(text: Seq<char>) -> Seq<Seq<char>> {
    names_from(text, Seq::empty(), false)
}

proof fn lemma_names_skip_escaped(word: Seq<char>, rest: Seq<char>, current: Seq<char>)
    ensures
        names_from(escape(word) + rest, current, false) == names_from(rest, current + word, false),
    decreases word.len(),
{
    if word.len() == 0 {
        assert(escape(word) + rest =~= rest);
        assert(current + word =~= current);
    } else {
        let init = word.drop_last();
        let c = word.last();
        let tail = escape_char(c) + rest;
        assert(escape(word) + rest =~= escape(init) + tail);
        lemma_names_skip_escaped(init, tail, current);
        let prefix = current + init;
        if c == '\\' || c == '\n' {
            assert(tail.drop_first().drop_first() =~= rest);
            assert(tail.drop_first()[0] == if c == '\\' { '\\' } else { 'n' });
            assert(names_from(tail, prefix, false) == names_from(tail.drop_first(), prefix, true));
            assert(names_from(tail.drop_first(), prefix, true) == names_from(rest, prefix.push(c), false));
        } else {
            assert(tail.drop_first() =~= rest);
        }
        assert(prefix.push(c) =~= current + word);
    }
}

proof fn lemma_escape_append(a: Seq<char>, b: Seq<char>)
    ensures
        escape(a + b) == escape(a) + escape(b),
    decreases b.len(),
{
    if b.len() == 0 {
        assert(a + b =~= a);
        assert(escape(b) =~= Seq::<char>::empty());
        assert(escape(a) + escape(b) =~= escape(a));
    } else {
        lemma_escape_append(a, b.drop_last());
        assert((a + b).drop_last() =~= a + b.drop_last());
        assert((a + b).last() == b.last());
        assert(escape(a + b) =~= escape(a) + escape(b));
    }
}

/// `name` holds neither a backslash nor a newline.
pub open spec fn is_plain(name: Seq<char>) -> bool {
    forall|i: int| 0 <= i < name.len() ==> #[trigger] name[i] != '\\' && name[i] != '\n'
}

/// A name that holds neither a backslash nor a newline is written as
/// itself.
pub proof fn lemma_plain_name_written_as_is(name: Seq<char>)
    requires
        is_plain(name),
    ensures
        escape(name) == name,
    decreases name.len(),
{
    if name.len() > 0 {
        let init = name.drop_last();
        assert forall|i: int| 0 <= i < init.len() implies #[trigger] init[i] != '\\' && init[i]
            != '\n' by {
            assert(init[i] == name[i]);
        }
        lemma_plain_name_written_as_is(init);
        assert(name.last() == name[name.len() - 1]);
        assert(escape(name) =~= name);
    }
}

/// In a name, a backslash is written as two backslashes and a newline as a
/// backslash and `n`; the parts around them are written as usual.
pub proof fn lemma_special_chars_escaped(before: Seq<char>, after: Seq<char>)
    ensures
        escape(before + seq!['\\'] + after) == escape(before) + seq!['\\', '\\'] + escape(after),
        escape(before + seq!['\n'] + after) == escape(before) + seq!['\\', 'n'] + escape(after),
{
    lemma_escape_append(before + seq!['\\'], after);
    lemma_escape_append(before, seq!['\\']);
    lemma_escape_append(before + seq!['\n'], after);
    lemma_escape_append(before, seq!['\n']);
    assert(seq!['\\'].drop_last() =~= Seq::<char>::empty());
    assert(seq!['\n'].drop_last() =~= Seq::<char>::empty());
    assert(escape(Seq::<char>::empty()) =~= Seq::<char>::empty());
    assert(seq!['\\'].last() == '\\');
    assert(seq!['\n'].last() == '\n');
    assert(escape(seq!['\\']) =~= seq!['\\', '\\']);
    assert(escape(seq!['\n']) =~= seq!['\\', 'n']);
}

proof fn lemma_names_skip_plain(word: Seq<char>, rest: Seq<char>, current: Seq<char>)
    requires
        is_plain(word),
    ensures
        names_from(word + rest, current, false) == names_from(rest, current + word, false),
{
    lemma_plain_name_written_as_is(word);
    lemma_names_skip_escaped(word, rest, current);
}

/// A name that holds neither a backslash nor a newline, followed by a
/// newline, is read as that name, and the rest of the answer is read after
/// it.
pub proof fn lemma_plain_name_read(name: Seq<char>, rest: Seq<char>)
    requires
        is_plain(name),
    ensures
        spec_parse_topic_list(name + seq!['\n'] + rest) == seq![name] + spec_parse_topic_list(
            rest,
        ),
{
    let tail = seq!['\n'] + rest;
    assert(name + seq!['\n'] + rest =~= name + tail);
    lemma_names_skip_plain(name, tail, Seq::empty());
    assert(Seq::<char>::empty() + name =~= name);
    assert(tail.drop_first() =~= rest);
}

/// A last name without a newline after it, holding neither a backslash nor
/// a newline, is read as that name.
pub proof fn lemma_last_plain_name_read(name: Seq<char>)
    requires
        is_plain(name),
        name.len() > 0,
    ensures
        spec_parse_topic_list(name) == seq![name],
{
    lemma_names_skip_plain(name, Seq::empty(), Seq::empty());
    assert(name + Seq::<char>::empty() =~= name);
    assert(Seq::<char>::empty() + name =~= name);
}

/// A backslash takes the next character as it is, `n` standing for a
/// newline.
pub proof fn lemma_escaped_char_read(c: char, rest: Seq<char>)
    ensures
        spec_parse_topic_list(seq!['\\', c, '\n'] + rest) == seq![
            seq![
                if c == 'n' {
                    '\n'
                } else {
                    c
                },
            ],
        ] + spec_parse_topic_list(rest),
{
    let text = seq!['\\', c, '\n'] + rest;
    assert(text.drop_first() =~= seq![c, '\n'] + rest);
    assert((seq![c, '\n'] + rest).drop_first() =~= seq!['\n'] + rest);
    assert((seq!['\n'] + rest).drop_first() =~= rest);
    let d = if c == 'n' {
        '\n'
    } else {
        c
    };
    let one = seq![c, '\n'] + rest;
    let two = seq!['\n'] + rest;
    assert(text[0] == '\\');
    assert(names_from(text, Seq::empty(), false) == names_from(one, Seq::empty(), true));
    assert(one[0] == c);
    assert(names_from(one, Seq::empty(), true) == names_from(two, Seq::<char>::empty().push(d), false));
    assert(two[0] == '\n');
    assert(Seq::<char>::empty().push(d) =~= seq![d]);
    assert(names_from(two, seq![d], false) == seq![seq![d]] + names_from(rest, Seq::empty(), false));
}

/// Reading back the list of topics gives the topics, whatever the names
/// hold.
pub proof fn lemma_topic_list_roundtrip(names: Seq<Seq<char>>)
    ensures
        spec_parse_topic_list(spec_topic_list(names)) == names,
    decreases names.len(),
{
    if names.len() == 0 {
        assert(spec_parse_topic_list(Seq::empty()) =~= names);
    } else {
        let tail = names.drop_first();
        lemma_topic_list_roundtrip(tail);
        let text = spec_topic_list(names);
        let after = seq!['\n'] + spec_topic_list(tail);
        assert(text =~= escape(names[0]) + after);
        lemma_names_skip_escaped(names[0], after, Seq::empty());
        assert(Seq::<char>::empty() + names[0] =~= names[0]);
        assert(after.drop_first() =~= spec_topic_list(tail));
        assert(seq![names[0]] + tail =~= names);
    }
}

proof fn lemma_topic_list_push(names: Seq<Seq<char>>, name: Seq<char>)
    ensures
        spec_topic_list(names.push(name)) == spec_topic_list(names) + escape(name) + seq!['\n'],
    decreases names.len(),
{
    if names.len() == 0 {
        assert(names.push(name).drop_first() =~= Seq::<Seq<char>>::empty());
        assert(spec_topic_list(names.push(name).drop_first()) =~= Seq::<char>::empty());
        assert(spec_topic_list(names) =~= Seq::<char>::empty());
        assert(names.push(name)[0] == name);
        assert(spec_topic_list(names.push(name)) =~= spec_topic_list(names) + escape(name) + seq![
            '\n',
        ]);
    } else {
        lemma_topic_list_push(names.drop_first(), name);
        assert(names.push(name).drop_first() =~= names.drop_first().push(name));
        assert(spec_topic_list(names.push(name)) =~= spec_topic_list(names) + escape(name) + seq![
            '\n',
        ]);
    }
}

/// Appends `name`, escaped, to `text`.
fn append_escaped(text: &mut String, name: &String)
    ensures
        final(text)@ == old(text)@ + escape(name@),
{
    let s = name.as_str();
    let len = s.unicode_len();
    let mut i: usize = 0;
    proof {
        reveal_strlit("\\\\");
        reveal_strlit("\\n");
        assert(s@.take(0) =~= Seq::<char>::empty());
        assert(text@ =~= old(text)@ + escape(s@.take(0)));
    }
    while i < len
        invariant
            len == s@.len(),
            s@ == name@,
            i <= len,
            text@ == old(text)@ + escape(s@.take(i as int)),
        decreases len - i,
    {
        let c = s.get_char(i);
        proof {
            reveal_strlit("\\\\");
            reveal_strlit("\\n");
        }
        assert(s@.take(i + 1).drop_last() =~= s@.take(i as int));
        assert(s@.take(i + 1).last() == c);
        if c == '\\' {
            text.append("\\\\");
        } else if c == '\n' {
            text.append("\\n");
        } else {
            text.append(s.substring_char(i, i + 1));
            assert(s@.subrange(i as int, i + 1) =~= seq![c]);
        }
        assert(text@ =~= old(text)@ + escape(s@.take(i + 1)));
        i = i + 1;
    }
    assert(s@.take(len as int) =~= s@);
}

/// The answer that lists the keys of `entries`.
pub fn encode_topic_list<V>(entries: &Vec<(String, V)>) -> (text: String)
    ensures
        text@ == spec_topic_list(keys_of(entries@)),
{
    let mut text = String::new();
    let mut i: usize = 0;
    while i < entries.len()
        invariant
            i <= entries@.len(),
            text@ == spec_topic_list(keys_of(entries@).take(i as int)),
        decreases entries@.len() - i,
    {
        proof {
            lemma_topic_list_push(keys_of(entries@).take(i as int), entries@[i as int].0@);
            assert(keys_of(entries@).take(i + 1) =~= keys_of(entries@).take(i as int).push(
                entries@[i as int].0@,
            ));
            reveal_strlit("\n");
        }
        append_escaped(&mut text, &entries[i].0);
        text.append("\n");
        i = i + 1;
    }
    assert(keys_of(entries@).take(i as int) =~= keys_of(entries@));
    text
}

/// The topics that an answer names (see `names_from`).
pub fn parse_topic_list(text: &String) -> (names: Vec<String>)
    ensures
        names@.map_values(|name: String| name@) == spec_parse_topic_list(text@),
{
    let s = text.as_str();
    let len = s.unicode_len();
    let mut names: Vec<String> = Vec::new();
    let mut current = String::new();
    let mut escaped = false;
    let mut i: usize = 0;
    proof {
        reveal_strlit("\n");
        reveal_strlit("\\");
        assert(s@.skip(0) =~= s@);
        assert(names@.map_values(|name: String| name@) + spec_parse_topic_list(text@)
            =~= spec_parse_topic_list(text@));
    }
    while i < len
        invariant
            len == s@.len(),
            s@ == text@,
            i <= len,
            names@.map_values(|name: String| name@) + names_from(
                s@.skip(i as int),
                current@,
                escaped,
            ) == spec_parse_topic_list(text@),
        decreases len - i,
    {
        let c = s.get_char(i);
        proof {
            reveal_strlit("\n");
        }
        let ghost before = names@.map_values(|name: String| name@);
        let ghost rest = s@.skip(i as int);
        let ghost cur = current@;
        assert(rest.drop_first() =~= s@.skip(i + 1));
        assert(rest[0] == c);
        assert(rest.len() > 0);
        if escaped {
            if c == 'n' {
                current.append("\n");
                assert(current@ =~= cur.push('\n'));
            } else {
                current.append(s.substring_char(i, i + 1));
                assert(s@.subrange(i as int, i + 1) =~= seq![c]);
                assert(current@ =~= cur.push(c));
            }
            escaped = false;
            assert(names_from(rest, cur, true) == names_from(
                rest.drop_first(),
                current@,
                false,
            ));
        } else if c == '\\' {
            escaped = true;
            assert(names_from(rest, cur, false) == names_from(rest.drop_first(), cur, true));
        } else if c == '\n' {
            let name = current;
            names.push(name);
            current = String::new();
            assert(names@.map_values(|name: String| name@) =~= before + seq![name@]);
            assert(names_from(rest, cur, false) == seq![cur] + names_from(
                rest.drop_first(),
                current@,
                false,
            ));
            assert(before + (seq![cur] + names_from(rest.drop_first(), current@, false)) =~= (
            before + seq![cur]) + names_from(rest.drop_first(), current@, false));
        } else {
            current.append(s.substring_char(i, i + 1));
            assert(s@.subrange(i as int, i + 1) =~= seq![c]);
            assert(current@ == cur.push(c));
            assert(names_from(rest, cur, false) == names_from(
                rest.drop_first(),
                current@,
                false,
            ));
        }
        i = i + 1;
    }
    assert(s@.skip(len as int) =~= Seq::<char>::empty());
    let ghost before = names@.map_values(|name: String| name@);
    let ghost cur = current@;
    if escaped {
        proof {
            reveal_strlit("\\");
        }
        current.append("\\");
        assert(current@ =~= cur.push('\\'));
        assert(names_from(Seq::empty(), cur, true) == seq![current@]);
        let ghost last = current@;
        names.push(current);
        assert(names@.map_values(|name: String| name@) =~= before + seq![last]);
    } else if !current.as_str().is_empty() {
        assert(names_from(Seq::empty(), cur, false) == seq![cur]);
        names.push(current);
        assert(names@.map_values(|name: String| name@) =~= before + seq![cur]);
    } else {
        assert(names_from(Seq::empty(), cur, false) == Seq::<Seq<char>>::empty());
        assert(before + Seq::<Seq<char>>::empty() =~= before);
    }
    names
}

} // verus!
