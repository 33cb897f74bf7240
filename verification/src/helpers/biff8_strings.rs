//! What is read of BIFF8 strings that were written.

use crate::error::ErrorView;
use crate::helpers::biff8::exact_bytes;
use crate::helpers::biff8::latin_text;
use crate::helpers::biff8::left;
use crate::helpers::biff8::lemma_string_part_advances;
use crate::helpers::biff8::readable;
use crate::helpers::biff8::skipped;
use crate::helpers::biff8::some_bytes;
use crate::helpers::biff8::string_head;
use crate::helpers::biff8::string_part;
use crate::helpers::biff8::string_rest;
use crate::helpers::biff8::StringHead;
use crate::helpers::encoding::decoded_text;
use crate::helpers::string::le_digits;
use crate::helpers::string::le_value;
use crate::helpers::string::lemma_le_round_trip;
use crate::helpers::string::pow256;
use vstd::prelude::*;

verus! {

/// Whether the unread bytes of the current chunk start with the given ones.
pub open spec fn starts_with(store: Seq<u8>, pending: Seq<(int, int)>, bytes: Seq<u8>) -> bool {
    bytes.len() == 0 || {
        &&& pending.len() > 0
        &&& pending[0].0 + bytes.len() <= pending[0].1
        &&& store.subrange(pending[0].0, pending[0].0 + bytes.len()) == bytes
    }
}

/// What is unread behind the first `n` bytes of the current chunk: the rest of it and
/// the chunks behind it.
pub open spec fn behind(pending: Seq<(int, int)>, n: int) -> Seq<(int, int)> {
    if n == 0 {
        pending
    } else if pending[0].1 - pending[0].0 == n {
        pending.drop_first()
    } else {
        pending.update(0, (pending[0].0 + n, pending[0].1))
    }
}

/// Reading takes the first bytes of the current chunk, and the next read goes on
/// behind them.
proof fn lemma_bytes_are_taken(store: Seq<u8>, pending: Seq<(int, int)>, a: Seq<u8>, b: Seq<u8>)
    requires
        readable(store, pending),
        starts_with(store, pending, a + b),
    ensures
        a.len() > 0 ==> exact_bytes(store, pending, a.len() as int) == Ok::<Seq<u8>, ErrorView>(a),
        a.len() > 0 ==> some_bytes(store, pending, a.len() as int) == Ok::<Seq<u8>, ErrorView>(a),
        skipped(pending, a.len() as int) == Ok::<(), ErrorView>(()),
        left(pending, a.len() as int) == behind(pending, a.len() as int),
        readable(store, behind(pending, a.len() as int)),
        starts_with(store, behind(pending, a.len() as int), b),
        behind(behind(pending, a.len() as int), b.len() as int) == behind(
            pending,
            (a.len() + b.len()) as int,
        ),
{
    let whole = a + b;
    let after = behind(pending, a.len() as int);
    if pending.len() > 0 {
        let (from, to) = pending[0];
        assert(from < to);
        if whole.len() > 0 {
            let stored = store.subrange(from, from + whole.len());
            assert(store.subrange(from, from + a.len()) =~= stored.take(a.len() as int));
            assert(whole.take(a.len() as int) =~= a);
            assert(store.subrange(from + a.len(), from + whole.len()) =~= stored.skip(
                a.len() as int,
            ));
            assert(whole.skip(a.len() as int) =~= b);
        }
        if a.len() == 0 {
            assert(left(pending, 0) =~= pending);
        }
        assert forall|i: int| 0 <= i < after.len() implies 0 <= (#[trigger] after[i]).0
            < after[i].1 <= store.len() by {
            if a.len() > 0 && to - from == a.len() {
                assert(after[i] == pending[i + 1]);
            } else if i > 0 {
                assert(after[i] == pending[i]);
            }
        }
        if a.len() > 0 && b.len() > 0 {
            assert(after[0] == (from + a.len(), to));
            assert(after.drop_first() =~= pending.drop_first());
            assert(behind(after, b.len() as int) =~= behind(pending, (a.len() + b.len()) as int));
        }
    }
}

/// A string as it is written: its flags, the bytes of its characters, and what is
/// said of their form and their sound.
pub struct WrittenString {
    /// Whether each character takes two bytes.
    pub wide: bool,
    /// The bytes of the characters.
    pub text: Seq<u8>,
    /// Whether the flags tell of formatting runs.
    pub has_runs: bool,
    /// The formatting runs, of four bytes each.
    pub runs: Seq<u8>,
    /// Whether the flags tell of phonetic data.
    pub has_phonetic: bool,
    /// The phonetic data.
    pub phonetic: Seq<u8>,
    /// The flag without a meaning.
    pub spare: nat,
    /// The upper four flags, which have no meaning.
    pub upper: nat,
}

impl WrittenString {
    /// The byte with the flags.
    pub open spec fn flags(self) -> u8 {
        let wide: nat = if self.wide {
            1
        } else {
            0
        };
        let phonetic: nat = if self.has_phonetic {
            4
        } else {
            0
        };
        let runs: nat = if self.has_runs {
            8
        } else {
            0
        };
        (wide + 2 * self.spare + phonetic + runs + 16 * self.upper) as u8
    }

    /// Whether the parts of the string fit together. A string of the plain form has
    /// neither formatting runs nor phonetic data, whatever its flags say.
    pub open spec fn is_sound(self, is_extended: bool) -> bool {
        &&& self.text.len() > 0
        &&& self.wide ==> self.text.len() % 2 == 0
        &&& self.runs.len() % 4 == 0
        &&& self.runs.len() / 4 < 65536
        &&& self.phonetic.len() < 0x1_0000_0000
        &&& !(is_extended && self.has_runs) ==> self.runs.len() == 0
        &&& !(is_extended && self.has_phonetic) ==> self.phonetic.len() == 0
        &&& self.spare < 2
        &&& self.upper < 16
    }

    /// The bytes of the counts.
    pub open spec fn counts(self, is_extended: bool) -> Seq<u8> {
        let runs = if is_extended && self.has_runs {
            le_digits(self.runs.len() / 4, 2)
        } else {
            Seq::empty()
        };
        let phonetic = if is_extended && self.has_phonetic {
            le_digits(self.phonetic.len(), 4)
        } else {
            Seq::empty()
        };
        runs + phonetic
    }

    /// The bytes of the string.
    pub open spec fn bytes(self, is_extended: bool) -> Seq<u8> {
        seq![self.flags()] + self.counts(is_extended) + self.text + self.runs + self.phonetic
    }

    /// The number of characters.
    pub open spec fn chars(self) -> nat {
        if self.wide {
            self.text.len() / 2
        } else {
            self.text.len()
        }
    }

    /// The text of the string: what the encoding of the workbook makes of characters
    /// of two bytes; a character of one byte is the one with that number.
    pub open spec fn shows(self, label: Seq<char>, text: Seq<char>) -> bool {
        if self.wide {
            decoded_text(label, self.text) == Some(text)
        } else {
            &&& text.len() == self.text.len()
            &&& forall|i: int|
                0 <= i < text.len() ==> (#[trigger] text[i]) as int == self.text[i] as int
        }
    }
}

proof fn lemma_string_head(
    store: Seq<u8>,
    pending: Seq<(int, int)>,
    string: WrittenString,
    is_extended: bool,
    rest: Seq<u8>,
)
    requires
        readable(store, pending),
        string.is_sound(is_extended),
        starts_with(
            store,
            pending,
            seq![string.flags()] + string.counts(is_extended) + rest,
        ),
    ensures
        ({
            let head = seq![string.flags()] + string.counts(is_extended);
            let after = behind(pending, head.len() as int);
            &&& string_head(store, pending, is_extended) == (
                Ok::<StringHead, ErrorView>(
                    StringHead {
                        wide: string.wide,
                        runs: string.runs.len() as int / 4,
                        phonetic: string.phonetic.len() as int,
                    },
                ),
                after,
            )
            &&& readable(store, after)
            &&& starts_with(store, after, rest)
            &&& behind(after, rest.len() as int) == behind(pending, (head.len() + rest.len()) as int)
        }),
{
    let flags = seq![string.flags()];
    let has_runs = is_extended && string.has_runs;
    let has_phonetic = is_extended && string.has_phonetic;
    let runs = if has_runs {
        le_digits(string.runs.len() / 4, 2)
    } else {
        Seq::empty()
    };
    let phonetic = if has_phonetic {
        le_digits(string.phonetic.len(), 4)
    } else {
        Seq::empty()
    };
    reveal_with_fuel(pow256, 5);
    lemma_le_round_trip(string.runs.len() / 4, 2);
    lemma_le_round_trip(string.phonetic.len(), 4);
    assert(le_value(Seq::<u8>::empty()) == 0);
    assert(flags + string.counts(is_extended) + rest =~= flags + (runs + (phonetic + rest)));
    lemma_bytes_are_taken(store, pending, flags, runs + (phonetic + rest));
    let after_flags = behind(pending, 1);
    lemma_bytes_are_taken(store, after_flags, runs, phonetic + rest);
    let after_runs = behind(after_flags, runs.len() as int);
    lemma_bytes_are_taken(store, after_runs, phonetic, rest);
    let after = behind(after_runs, phonetic.len() as int);
    lemma_bytes_are_taken(store, pending, flags + (runs + phonetic), rest);
    assert(flags + (runs + phonetic) + rest =~= flags + (runs + (phonetic + rest)));
    assert(starts_with(store, pending, flags + runs)) by {
        assert(flags + runs + (phonetic + rest) =~= flags + (runs + (phonetic + rest)));
        lemma_prefix(store, pending, flags + runs, phonetic + rest);
    }
    lemma_bytes_are_taken(store, pending, flags, runs);
    assert(starts_with(store, pending, flags + (runs + phonetic))) by {
        lemma_prefix(store, pending, flags + (runs + phonetic), rest);
    }
    lemma_bytes_are_taken(store, pending, flags, runs + phonetic);
    lemma_bytes_are_taken(store, after_flags, runs, phonetic);
    assert(after == behind(pending, (1 + runs.len() + phonetic.len()) as int));
    let flag = string.flags();
    assert(exact_bytes(store, pending, 1) == Ok::<Seq<u8>, ErrorView>(flags));
    assert(flags[0] == flag);
    assert(flag % 2 == 1 <==> string.wide);
    assert(flag / 8 % 2 == 1 <==> string.has_runs);
    assert(flag / 4 % 2 == 1 <==> string.has_phonetic);
}

proof fn lemma_prefix(store: Seq<u8>, pending: Seq<(int, int)>, a: Seq<u8>, b: Seq<u8>)
    requires
        readable(store, pending),
        starts_with(store, pending, a + b),
    ensures
        starts_with(store, pending, a),
{
    if a.len() > 0 {
        let whole = a + b;
        let from = pending[0].0;
        assert(store.subrange(from, from + a.len()) =~= store.subrange(
            from,
            from + whole.len(),
        ).take(a.len() as int));
        assert(whole.take(a.len() as int) =~= a);
    }
}

/// A string that stands in one chunk is read back, and reading goes on right behind
/// it: formatting runs and phonetic data are passed over.
pub proof fn lemma_string_is_read(
    label: Seq<char>,
    store: Seq<u8>,
    pending: Seq<(int, int)>,
    string: WrittenString,
    is_extended: bool,
    text: Seq<char>,
)
    requires
        readable(store, pending),
        string.is_sound(is_extended),
        string.shows(label, text),
        starts_with(store, pending, string.bytes(is_extended)),
    ensures
        string_part(label, store, pending, string.chars(), is_extended) == (
            Ok::<(Seq<char>, nat), ErrorView>((text, string.chars())),
            behind(pending, string.bytes(is_extended).len() as int),
        ),
        string_rest(label, store, pending, string.chars(), is_extended) == (
            Ok::<Seq<char>, ErrorView>(text),
            behind(pending, string.bytes(is_extended).len() as int),
        ),
        readable(store, behind(pending, string.bytes(is_extended).len() as int)),
{
    let head = seq![string.flags()] + string.counts(is_extended);
    let (body, runs, phonetic) = (string.text, string.runs, string.phonetic);
    let rest = body + (runs + phonetic);
    assert(string.bytes(is_extended) =~= head + rest);
    lemma_string_head(store, pending, string, is_extended, rest);
    let after_head = behind(pending, head.len() as int);
    lemma_bytes_are_taken(store, after_head, body, runs + phonetic);
    let after_text = behind(after_head, body.len() as int);
    lemma_bytes_are_taken(store, after_text, runs, phonetic);
    let after_runs = behind(after_text, runs.len() as int);
    assert(phonetic + Seq::<u8>::empty() =~= phonetic);
    lemma_bytes_are_taken(store, after_runs, phonetic, Seq::empty());
    lemma_bytes_are_taken(store, after_text, runs + phonetic, Seq::empty());
    assert(runs + phonetic + Seq::<u8>::empty() =~= runs + phonetic);
    assert(4 * (runs.len() as int / 4) == runs.len());
    if !string.wide {
        let found = latin_text(body);
        assert forall|i: int| 0 <= i < found.len() implies found[i] == #[trigger] text[i] by {
            assert(text[i] as int == body[i] as int);
        }
        assert(found =~= text);
    }
}

/// A length of `n` bytes before a string is read, and the string stands behind it.
pub proof fn lemma_length_comes_first(
    store: Seq<u8>,
    pending: Seq<(int, int)>,
    length: nat,
    n: nat,
    bytes: Seq<u8>,
)
    requires
        readable(store, pending),
        n > 0,
        length < pow256(n),
        starts_with(store, pending, le_digits(length, n) + bytes),
    ensures
        exact_bytes(store, pending, n as int) matches Ok(found) && le_value(found) == length,
        readable(store, left(pending, n as int)),
        starts_with(store, left(pending, n as int), bytes),
        behind(left(pending, n as int), bytes.len() as int) == behind(
            pending,
            (n + bytes.len()) as int,
        ),
{
    lemma_le_round_trip(length, n);
    lemma_bytes_are_taken(store, pending, le_digits(length, n), bytes);
}

/// The number of characters of several parts of a string.
pub open spec fn chars_of_parts(parts: Seq<WrittenString>) -> nat
    decreases parts.len(),
{
    if parts.len() == 0 {
        0
    } else {
        parts[0].chars() + chars_of_parts(parts.drop_first())
    }
}

/// Texts one behind the other.
pub open spec fn joined(texts: Seq<Seq<char>>) -> Seq<char>
    decreases texts.len(),
{
    if texts.len() == 0 {
        Seq::empty()
    } else {
        texts[0] + joined(texts.drop_first())
    }
}

/// Whether each part of a string fills its chunk but for the last one, which its chunk
/// starts with, and shows its text.
pub open spec fn fill_chunks(
    label: Seq<char>,
    store: Seq<u8>,
    pending: Seq<(int, int)>,
    parts: Seq<WrittenString>,
    texts: Seq<Seq<char>>,
) -> bool {
    &&& 0 < parts.len() <= pending.len()
    &&& texts.len() == parts.len()
    &&& forall|i: int|
        0 <= i < parts.len() ==> {
            let part = #[trigger] parts[i];
            let bytes = part.bytes(false);
            let (from, to) = pending[i];
            &&& part.is_sound(false)
            &&& !part.has_runs
            &&& !part.has_phonetic
            &&& part.shows(label, texts[i])
            &&& from + bytes.len() <= to
            &&& i + 1 < parts.len() ==> from + bytes.len() == to
            &&& store.subrange(from, from + bytes.len()) == bytes
        }
}

proof fn lemma_part_is_read(
    label: Seq<char>,
    store: Seq<u8>,
    pending: Seq<(int, int)>,
    part: WrittenString,
    text: Seq<char>,
    chars: nat,
    is_extended: bool,
)
    requires
        readable(store, pending),
        pending.len() > 1,
        part.is_sound(is_extended),
        !part.has_runs,
        !part.has_phonetic,
        part.shows(label, text),
        starts_with(store, pending, part.bytes(is_extended)),
        pending[0].0 + part.bytes(is_extended).len() == pending[0].1,
        part.chars() <= chars,
    ensures
        string_part(label, store, pending, chars, is_extended) == (
            Ok::<(Seq<char>, nat), ErrorView>((text, part.chars())),
            pending.drop_first(),
        ),
        readable(store, pending.drop_first()),
{
    let bytes = part.bytes(is_extended);
    let head = seq![part.flags()];
    assert(part.counts(is_extended) =~= Seq::<u8>::empty());
    assert(bytes =~= head + part.text);
    assert(head + part.counts(is_extended) =~= head);
    lemma_string_head(store, pending, part, is_extended, part.text);
    let after_head = behind(pending, 1);
    assert(after_head[0] == (pending[0].0 + 1, pending[0].1));
    assert(part.text + Seq::<u8>::empty() =~= part.text);
    lemma_bytes_are_taken(store, after_head, part.text, Seq::empty());
    let expected: int = if part.wide {
        2 * chars as int
    } else {
        chars as int
    };
    assert(expected >= part.text.len());
    assert(some_bytes(store, after_head, expected) == some_bytes(
        store,
        after_head,
        part.text.len() as int,
    ));
    let after = pending.drop_first();
    assert(left(after_head, expected) =~= after);
    assert forall|i: int| 0 <= i < after.len() implies 0 <= (#[trigger] after[i]).0 < after[i].1
        <= store.len() by {
        assert(after[i] == pending[i + 1]);
    }
    assert(after[0].0 < after[0].1);
    assert(left(after, 0) =~= after);
    if !part.wide {
        let found = latin_text(part.text);
        assert forall|i: int| 0 <= i < found.len() implies found[i] == #[trigger] text[i] by {
            assert(text[i] as int == part.text[i] as int);
        }
        assert(found =~= text);
    }
}

/// A string that goes on in further chunks is read back whole: the characters of each
/// chunk have the width that its own flags tell, and the flags are no part of the text.
pub proof fn lemma_split_string_is_read(
    label: Seq<char>,
    store: Seq<u8>,
    pending: Seq<(int, int)>,
    parts: Seq<WrittenString>,
    texts: Seq<Seq<char>>,
    is_extended: bool,
)
    requires
        readable(store, pending),
        fill_chunks(label, store, pending, parts, texts),
    ensures
        string_rest(label, store, pending, chars_of_parts(parts), is_extended).0 == Ok::<
            Seq<char>,
            ErrorView,
        >(joined(texts)),
    decreases parts.len(),
{
    let part = parts[0];
    let others = parts.drop_first();
    let chars = chars_of_parts(parts);
    assert(part.bytes(is_extended) =~= part.bytes(false));
    assert(part.is_sound(is_extended));
    assert(starts_with(store, pending, part.bytes(is_extended)));
    if parts.len() == 1 {
        assert(chars_of_parts(others) == 0);
        lemma_string_is_read(label, store, pending, part, is_extended, texts[0]);
        assert(texts.drop_first() =~= Seq::<Seq<char>>::empty());
        assert(joined(texts.drop_first()) == Seq::<char>::empty());
        assert(joined(texts) =~= texts[0]);
    } else {
        let after = pending.drop_first();
        let more = texts.drop_first();
        assert(others[0] == parts[1]);
        assert(others[0].chars() > 0);
        lemma_part_is_read(label, store, pending, part, texts[0], chars, is_extended);
        assert(fill_chunks(label, store, after, others, more)) by {
            assert forall|i: int| 0 <= i < others.len() implies {
                let part = #[trigger] others[i];
                let bytes = part.bytes(false);
                let (from, to) = after[i];
                &&& part.is_sound(false)
                &&& !part.has_runs
                &&& !part.has_phonetic
                &&& part.shows(label, more[i])
                &&& from + bytes.len() <= to
                &&& i + 1 < others.len() ==> from + bytes.len() == to
                &&& store.subrange(from, from + bytes.len()) == bytes
            } by {
                assert(others[i] == parts[i + 1]);
                assert(after[i] == pending[i + 1]);
            }
        }
        lemma_string_part_advances(label, store, pending, chars, is_extended);
        lemma_split_string_is_read(label, store, after, others, more, false);
    }
}

} // verus!
