//! Quoting of values for a POSIX shell, and what the shell makes of them.
use vstd::prelude::*;

use crate::text::{chars_of, joined};

verus! {

/// The value with a space before it where it begins with a hyphen, so that no
/// command takes it for an option.
pub open spec fn padded(value: Seq<char>) -> Seq<char> {
    if value.len() > 0 && value[0] == '-' {
        seq![' '] + value
    } else {
        value
    }
}

/// The text with each single quote replaced by a closing quote, an escaped
/// quote and an opening quote.
pub open spec fn escaped(text: Seq<char>) -> Seq<char>
    decreases text.len(),
{
    if text.len() == 0 {
        Seq::empty()
    } else if text.last() == '\'' {
        escaped(text.drop_last()) + seq!['\'', '\\', '\'', '\'']
    } else {
        escaped(text.drop_last()).push(text.last())
    }
}

/// The text between single quotes, with the quotes in it escaped.
pub open spec fn quoted(text: Seq<char>) -> Seq<char> {
    seq!['\''] + escaped(text) + seq!['\'']
}

/// The value as it is printed.
pub open spec fn prepared(value: Seq<char>, should_quote: bool) -> Seq<char> {
    if should_quote {
        quoted(padded(value))
    } else {
        value
    }
}

/// Prepares a value for output. With `should_quote` a space goes before a value
/// that begins with a hyphen, and the whole is put between single quotes, with
/// each single quote in it escaped.
pub fn prepare_and_quote(val_str: String, should_quote: bool) -> (r: String)
    ensures
        r@ == prepared(val_str@, should_quote),
{
    if !should_quote {
        return val_str;
    }
    let chars = chars_of(val_str.as_str());
    let mut r = String::new();
    r.push('\'');
    let ghost pad: Seq<char> = if chars@.len() > 0 && chars@[0] == '-' {
        seq![' ']
    } else {
        Seq::empty()
    };
    if chars.len() > 0 && chars[0] == '-' {
        r.push(' ');
    }
    proof {
        reveal_with_fuel(escaped, 2);
        assert(pad + chars@.take(0) =~= pad);
        assert(pad.len() > 0 ==> pad.drop_last() =~= Seq::<char>::empty());
        assert(r@ =~= seq!['\''] + escaped(pad + chars@.take(0)));
    }
    let mut i: usize = 0;
    while i < chars.len()
        invariant
            i <= chars.len(),
            r@ == seq!['\''] + escaped(pad + chars@.take(i as int)),
        decreases chars.len() - i,
    {
        let c = chars[i];
        proof {
            let longer = pad + chars@.take(i + 1);
            assert(longer.drop_last() =~= pad + chars@.take(i as int));
            assert(longer.last() == c);
        }
        if c == '\'' {
            r.push('\'');
            r.push('\\');
            r.push('\'');
            r.push('\'');
        } else {
            r.push(c);
        }
        proof {
            assert(r@ =~= seq!['\''] + escaped(pad + chars@.take(i + 1)));
        }
        i += 1;
    }
    r.push('\'');
    proof {
        assert(chars@.take(chars@.len() as int) =~= chars@);
        assert(pad + chars@ =~= padded(val_str@));
        assert(r@ =~= quoted(padded(val_str@)));
    }
    r
}

/// Where the shell stands while it reads a line: between words, in a word, or
/// inside the single quotes of a word.
pub enum Reading {
    Between,
    Word,
    Quoted,
}

/// The words that the shell has read, the one it is reading, and where it
/// stands.
#[verifier::ext_equal]
pub struct Reader {
    pub words: Seq<Seq<char>>,
    pub word: Seq<char>,
    pub reading: Reading,
}

/// Whether the character stands for itself in a word outside any quotes. The
/// characters left out have a meaning of their own to the shell somewhere.
pub open spec fn plain(c: char) -> bool {
    ||| 'a' <= c <= 'z'
    ||| 'A' <= c <= 'Z'
    ||| '0' <= c <= '9'
    ||| c == '_' || c == '-' || c == '.' || c == '/' || c == ',' || c == ':' || c == '+' || c
        == '@' || c == '%'
}

/// Reads the line on from the character at `i`. The result is the words of the
/// line, if it ends outside quotes and holds nothing that the shell would
/// interpret: within single quotes every character but a single quote stands
/// for itself; outside, a backslash makes the next character stand for itself,
/// and blanks end a word.
pub open spec fn read_on(reader: Reader, line: Seq<char>, i: int) -> Option<Seq<Seq<char>>>
    decreases line.len() - i,
{
    if i < 0 {
        None
    } else if i >= line.len() {
        match reader.reading {
            Reading::Between => Some(reader.words),
            Reading::Word => Some(reader.words.push(reader.word)),
            Reading::Quoted => None,
        }
    } else if reader.reading is Quoted {
        if line[i] == '\'' {
            read_on(Reader { reading: Reading::Word, ..reader }, line, i + 1)
        } else {
            read_on(Reader { word: reader.word.push(line[i]), ..reader }, line, i + 1)
        }
    } else if line[i] == '\'' {
        read_on(Reader { reading: Reading::Quoted, ..reader }, line, i + 1)
    } else if line[i] == '\\' {
        if i + 1 < line.len() && line[i + 1] != '\n' {
            read_on(
                Reader { word: reader.word.push(line[i + 1]), reading: Reading::Word, ..reader },
                line,
                i + 2,
            )
        } else {
            None
        }
    } else if line[i] == ' ' || line[i] == '\t' {
        if reader.reading is Word {
            read_on(
                Reader {
                    words: reader.words.push(reader.word),
                    word: Seq::empty(),
                    reading: Reading::Between,
                },
                line,
                i + 1,
            )
        } else {
            read_on(reader, line, i + 1)
        }
    } else if plain(line[i]) {
        read_on(
            Reader { word: reader.word.push(line[i]), reading: Reading::Word, ..reader },
            line,
            i + 1,
        )
    } else {
        None
    }
}

/// The words of which a shell command line consists, if the shell interprets
/// nothing in it.
pub open spec fn shell_words(line: Seq<char>) -> Option<Seq<Seq<char>>> {
    read_on(
        Reader { words: Seq::empty(), word: Seq::empty(), reading: Reading::Between },
        line,
        0,
    )
}

/// Inside quotes, reading an escaped text adds that text to the word.
proof fn lemma_read_escaped(reader: Reader, line: Seq<char>, i: int, text: Seq<char>)
    requires
        reader.reading is Quoted,
        0 <= i,
        i + escaped(text).len() <= line.len(),
        line.subrange(i, i + escaped(text).len()) == escaped(text),
    ensures
        read_on(reader, line, i) == read_on(
            Reader { word: reader.word + text, ..reader },
            line,
            i + escaped(text).len(),
        ),
    decreases text.len(),
{
    if text.len() == 0 {
        assert(reader.word + text =~= reader.word);
    } else {
        let front = text.drop_last();
        let here = line.subrange(i, i + escaped(text).len());
        assert(line.subrange(i, i + escaped(front).len()) =~= escaped(front)) by {
            assert(line.subrange(i, i + escaped(front).len()) =~= here.take(
                escaped(front).len() as int,
            ));
        }
        lemma_read_escaped(reader, line, i, front);
        let n = escaped(front).len() as int;
        let at = i + n;
        assert(reader.word + text =~= (reader.word + front).push(text.last()));
        if text.last() == '\'' {
            assert(line[at] == here[n]);
            assert(line[at + 1] == here[n + 1]);
            assert(line[at + 2] == here[n + 2]);
            assert(line[at + 3] == here[n + 3]);
            reveal_with_fuel(read_on, 4);
        } else {
            assert(line[at] == here[n]);
        }
    }
}

/// Reading a quoted text adds that text to the word.
proof fn lemma_read_quoted(reader: Reader, line: Seq<char>, i: int, text: Seq<char>)
    requires
        !(reader.reading is Quoted),
        0 <= i,
        i + quoted(text).len() <= line.len(),
        line.subrange(i, i + quoted(text).len()) == quoted(text),
    ensures
        read_on(reader, line, i) == read_on(
            Reader { word: reader.word + text, reading: Reading::Word, ..reader },
            line,
            i + quoted(text).len(),
        ),
{
    let here = line.subrange(i, i + quoted(text).len());
    let n = escaped(text).len() as int;
    assert(line[i] == here[0]);
    assert(line[i + 1 + n] == here[1 + n]);
    assert(line.subrange(i + 1, i + 1 + n) =~= escaped(text)) by {
        assert(line.subrange(i + 1, i + 1 + n) =~= here.subrange(1, 1 + n));
        assert(here.subrange(1, 1 + n) =~= escaped(text));
    }
    lemma_read_escaped(Reader { reading: Reading::Quoted, ..reader }, line, i + 1, text);
}

/// The prepared form of each value.
pub open spec fn all_prepared(values: Seq<Seq<char>>, should_quote: bool) -> Seq<Seq<char>> {
    values.map_values(|value: Seq<char>| prepared(value, should_quote))
}

/// The words that the shell reads from the prepared forms of the values.
pub open spec fn all_padded(values: Seq<Seq<char>>) -> Seq<Seq<char>> {
    values.map_values(|value: Seq<char>| padded(value))
}

/// Reading quoted values with spaces between them adds the values as words.
proof fn lemma_read_line(values: Seq<Seq<char>>, line: Seq<char>)
    requires
        values.len() > 0,
        joined(all_prepared(values, true), seq![' ']).len() <= line.len(),
        line.take(joined(all_prepared(values, true), seq![' ']).len() as int) == joined(
            all_prepared(values, true),
            seq![' '],
        ),
    ensures
        shell_words(line) == read_on(
            Reader {
                words: all_padded(values).drop_last(),
                word: padded(values.last()),
                reading: Reading::Word,
            },
            line,
            joined(all_prepared(values, true), seq![' ']).len() as int,
        ),
    decreases values.len(),
{
    let parts = all_prepared(values, true);
    let whole = joined(parts, seq![' ']);
    let start = Reader {
        words: Seq::<Seq<char>>::empty(),
        word: Seq::<char>::empty(),
        reading: Reading::Between,
    };
    let text = padded(values.last());
    if values.len() == 1 {
        assert(line.subrange(0, quoted(text).len() as int) =~= line.take(whole.len() as int));
        lemma_read_quoted(start, line, 0, text);
        assert(start.word + text =~= text);
        assert(all_padded(values).drop_last() =~= start.words);
    } else {
        let front = values.drop_last();
        assert(parts.drop_last() =~= all_prepared(front, true));
        let before = joined(all_prepared(front, true), seq![' ']);
        let n = before.len() as int;
        assert(whole == before + seq![' '] + quoted(text));
        assert(line.take(n) =~= before) by {
            assert(line.take(n) =~= line.take(whole.len() as int).take(n));
        }
        lemma_read_line(front, line);
        let read = Reader {
            words: all_padded(front).drop_last(),
            word: padded(front.last()),
            reading: Reading::Word,
        };
        assert(line[n] == line.take(whole.len() as int)[n]);
        let next = Reader {
            words: all_padded(front),
            word: Seq::<char>::empty(),
            reading: Reading::Between,
        };
        assert(read.words.push(read.word) =~= all_padded(front));
        assert(read_on(read, line, n) == read_on(next, line, n + 1));
        assert(line.subrange(n + 1, n + 1 + quoted(text).len()) =~= quoted(text)) by {
            assert(line.subrange(n + 1, n + 1 + quoted(text).len()) =~= line.take(
                whole.len() as int,
            ).skip(n + 1));
        }
        lemma_read_quoted(next, line, n + 1, text);
        assert(next.word + text =~= text);
        assert(all_padded(values).drop_last() =~= all_padded(front));
    }
}

/// A shell that reads the values, quoted and with a space between each and the
/// next, reads exactly these values as its words, each with a space before it
/// where it begins with a hyphen, and interprets nothing in them.
pub proof fn law_shell_reads_quoted_values_back(values: Seq<Seq<char>>)
    ensures
        shell_words(joined(all_prepared(values, true), seq![' '])) == Some(all_padded(values)),
{
    let line = joined(all_prepared(values, true), seq![' ']);
    if values.len() == 0 {
        assert(all_padded(values) =~= Seq::<Seq<char>>::empty());
    } else {
        assert(line.take(line.len() as int) =~= line);
        lemma_read_line(values, line);
        assert(all_padded(values).drop_last().push(padded(values.last())) =~= all_padded(values));
    }
}

/// A shell reads one quoted value as one word, which is the value with a space
/// before it where it begins with a hyphen.
pub proof fn law_shell_reads_a_quoted_value_back(value: Seq<char>)
    ensures
        shell_words(prepared(value, true)) == Some(seq![padded(value)]),
{
    law_shell_reads_quoted_values_back(seq![value]);
    assert(all_prepared(seq![value], true) =~= seq![prepared(value, true)]);
    assert(all_padded(seq![value]) =~= seq![padded(value)]);
}

/// No word that comes from a quoted value begins with a hyphen.
pub proof fn law_quoted_values_are_no_options(value: Seq<char>)
    ensures
        padded(value).len() > 0 ==> padded(value)[0] != '-',
        padded(value) == value || padded(value) == seq![' '] + value,
{
}

/// A space goes before a value that begins with a hyphen, and before no other.
pub proof fn law_padding(value: Seq<char>, rest: Seq<char>)
    ensures
        padded(seq!['-'] + rest) == seq![' ', '-'] + rest,
        !seq!['-'].is_prefix_of(value) ==> padded(value) == value,
{
    assert(padded(seq!['-'] + rest) =~= seq![' ', '-'] + rest);
    if value.len() > 0 && value[0] == '-' {
        assert(seq!['-'].is_prefix_of(value));
    }
}

/// Escaping goes character by character: a single quote becomes a closing quote,
/// an escaped quote and an opening quote, and any other character stays.
pub proof fn law_escaping_goes_character_by_character(a: Seq<char>, b: Seq<char>, c: char)
    ensures
        escaped(Seq::empty()) == Seq::<char>::empty(),
        escaped(seq!['\'']) == seq!['\'', '\\', '\'', '\''],
        c != '\'' ==> escaped(seq![c]) == seq![c],
        escaped(a + b) == escaped(a) + escaped(b),
    decreases b.len(),
{
    reveal_with_fuel(escaped, 2);
    assert(seq!['\''].drop_last() =~= Seq::<char>::empty());
    assert(seq![c].drop_last() =~= Seq::<char>::empty());
    assert(escaped(seq!['\'']) =~= seq!['\'', '\\', '\'', '\'']);
    if c != '\'' {
        assert(escaped(seq![c]) =~= seq![c]);
    }
    if b.len() == 0 {
        assert(a + b =~= a);
        assert(escaped(a + b) =~= escaped(a) + escaped(b));
    } else {
        law_escaping_goes_character_by_character(a, b.drop_last(), c);
        assert((a + b).drop_last() =~= a + b.drop_last());
        assert(escaped(a + b) =~= escaped(a) + escaped(b));
    }
}

/// A quoted value begins and ends with a single quote, and between stands the
/// escaped value. Without quoting a value is printed as it is.
pub proof fn law_prepared_values(value: Seq<char>)
    ensures
        prepared(value, false) == value,
        prepared(value, true).len() == escaped(padded(value)).len() + 2,
        prepared(value, true).first() == '\'',
        prepared(value, true).last() == '\'',
        prepared(value, true).drop_first().drop_last() == escaped(padded(value)),
{
    assert(prepared(value, true).drop_first().drop_last() =~= escaped(padded(value)));
}

/// Values are prepared one by one, in their order.
pub proof fn law_values_are_prepared_one_by_one(
    values: Seq<Seq<char>>,
    should_quote: bool,
    i: int,
)
    ensures
        all_prepared(values, should_quote).len() == values.len(),
        all_padded(values).len() == values.len(),
        0 <= i < values.len() ==> all_prepared(values, should_quote)[i] == prepared(
            values[i],
            should_quote,
        ),
        0 <= i < values.len() ==> all_padded(values)[i] == padded(values[i]),
{
}

/// A line without quoting consists of the values with the separator between.
pub proof fn law_unquoted_line_holds_the_values(values: Seq<Seq<char>>, separator: Seq<char>)
    ensures
        all_prepared(values, false) == values,
        joined(all_prepared(values, false), separator) == joined(values, separator),
{
    assert forall|i: int| 0 <= i < values.len() implies all_prepared(values, false)[i]
        == values[i] by {
        law_prepared_values(values[i]);
    }
    assert(all_prepared(values, false) =~= values);
}

}
