//! Vocabularies: the `tokens.txt` file that comes with a model, and the way back
//! from token ids to text.

use crate::error::{AsrError, ErrorView};
use crate::text::{
    concat, decimal, digit, digit_value, from_chars, law_lines_are_split,
    law_written_numbers_are_read_back, lossy_text, parse_unsigned, pieces, same_text, split,
    to_chars, trim, trim_chars, trimmed, unsigned_value, utf8_lossy, views, Separator,
};
use vstd::prelude::*;
use vstd::string::*;
use vstd::utf8::{decode_utf8, encode_utf8, encode_utf8_decode_utf8, encode_utf8_valid_utf8, valid_utf8};

verus! {

// --- tokens.txt -----------------------------------------------------------------

/// Whether `c` separates a symbol from its id.
pub open spec fn gap(c: char) -> bool {
    c == ' ' || c == '\t'
}

/// `s` without the carriage returns at its end.
pub open spec fn without_returns(s: Seq<char>) -> Seq<char>
    decreases s.len(),
{
    if s.len() > 0 && s.last() == '\r' {
        without_returns(s.drop_last())
    } else {
        s
    }
}

/// Where the last space or tab of `s` stands.
pub open spec fn last_gap(s: Seq<char>) -> Option<int>
    decreases s.len(),
{
    if s.len() == 0 {
        None
    } else if gap(s.last()) {
        Some(s.len() - 1)
    } else {
        last_gap(s.drop_last())
    }
}

/// The symbol and the id that a line of `tokens.txt` gives: the symbol is
/// everything before the last space or tab, the id what follows it. A line
/// without an id gives nothing.
pub open spec fn entry(line: Seq<char>) -> Option<(Seq<char>, nat)> {
    let bare = without_returns(line);
    match last_gap(bare) {
        None => None,
        Some(p) => match unsigned_value(trimmed(bare.skip(p + 1)), 10, usize::MAX as nat) {
            Some(id) => Some((bare.take(p), id)),
            None => None,
        },
    }
}

/// `table` with `symbol` at `id`, grown by empty symbols when it is too short.
pub open spec fn put(table: Seq<Seq<char>>, id: nat, symbol: Seq<char>) -> Seq<Seq<char>> {
    if id < table.len() {
        table.update(id as int, symbol)
    } else {
        (table + Seq::new((id - table.len()) as nat, |i: int| Seq::<char>::empty())).push(symbol)
    }
}

/// The table that the lines of `tokens.txt` fill, from the first to the last.
pub open spec fn filled(lines: Seq<Seq<char>>) -> Seq<Seq<char>>
    decreases lines.len(),
{
    if lines.len() == 0 {
        Seq::empty()
    } else {
        let before = filled(lines.drop_last());
        match entry(lines.last()) {
            Some((symbol, id)) => put(before, id, symbol),
            None => before,
        }
    }
}

/// The table that `tokens.txt` holds, symbols indexed by id.
pub open spec fn token_table(text: Seq<char>) -> Seq<Seq<char>> {
    filled(pieces(text, Separator::Newline))
}

/// Every id of `tokens.txt` has room for one more after it.
pub open spec fn ids_fit(text: Seq<char>) -> bool {
    let lines = pieces(text, Separator::Newline);
    forall|i: int|
        0 <= i < lines.len() ==> (#[trigger] entry(lines[i]) matches Some((_, id)) ==> id
            < usize::MAX)
}

/// Reads one line of `tokens.txt`.
fn read_entry(line: &Vec<char>) -> (r: Option<(String, usize)>)
    ensures
        r is Some == entry(line@) is Some,
        r matches Some((symbol, id)) ==> entry(line@) == Some((symbol@, id as nat)),
{
    let mut end: usize = line.len();
    assert(line@.take(end as int) =~= line@);
    while end > 0 && line[end - 1] == '\r'
        invariant
            end <= line@.len(),
            without_returns(line@) == without_returns(line@.take(end as int)),
        decreases end,
    {
        assert(line@.take(end as int).drop_last() =~= line@.take(end - 1));
        end -= 1;
    }
    let ghost bare = line@.take(end as int);
    assert(without_returns(line@) == bare);
    let mut at: usize = end;
    assert(bare.take(end as int) =~= bare);
    while at > 0 && !(line[at - 1] == ' ' || line[at - 1] == '\t')
        invariant
            at <= end <= line@.len(),
            bare == line@.take(end as int),
            last_gap(bare) == last_gap(bare.take(at as int)),
        decreases at,
    {
        assert(bare.take(at as int).drop_last() =~= bare.take(at - 1));
        at -= 1;
    }
    if at == 0 {
        return None;
    }
    assert(bare.take(at as int).last() == line@[at - 1]);
    let p: usize = at - 1;
    assert(last_gap(bare) == Some(p as int));
    let tail: &[char] = vstd::slice::slice_subrange(line.as_slice(), at, end);
    assert(tail@ =~= bare.skip(p + 1));
    let digits = trim_chars(tail);
    match parse_unsigned(digits.as_slice(), 10, usize::MAX as u64) {
        Some(id) => {
            let head: &[char] = vstd::slice::slice_subrange(line.as_slice(), 0, p);
            assert(head@ =~= bare.take(p as int));
            Some((from_chars(head), id as usize))
        },
        None => None,
    }
}

/// Whether every id of `tokens.txt` has room for one more after it.
pub fn token_ids_fit(text: &str) -> (r: bool)
    ensures
        r == ids_fit(text@),
{
    let chars = to_chars(text);
    let lines = split(chars.as_slice(), Separator::Newline);
    let ghost all = pieces(text@, Separator::Newline);
    let n: usize = lines.len();
    let mut i: usize = 0;
    while i < n
        invariant
            n == lines@.len(),
            i <= n,
            crate::text::char_views(lines@) == all,
            all == pieces(text@, Separator::Newline),
            forall|j: int|
                0 <= j < i ==> (#[trigger] entry(all[j]) matches Some((_, id)) ==> id < usize::MAX),
        decreases n - i,
    {
        assert(all[i as int] == lines@[i as int]@);
        if let Some((_, id)) = read_entry(&lines[i]) {
            if id == usize::MAX {
                return false;
            }
        }
        i += 1;
    }
    true
}

/// Parses the contents of `tokens.txt` (`<symbol> <id>` per line) into a table
/// indexed by id: see [`token_table`].
pub fn parse_tokens(text: &str) -> (r: Vec<String>)
    requires
        ids_fit(text@),
    ensures
        views(r@) == token_table(text@),
{
    let chars = to_chars(text);
    let lines = split(chars.as_slice(), Separator::Newline);
    let ghost all = pieces(text@, Separator::Newline);
    let mut table: Vec<String> = Vec::new();
    let n: usize = lines.len();
    let mut i: usize = 0;
    assert(all.take(0) =~= Seq::empty());
    assert(views(table@) =~= filled(all.take(0)));
    while i < n
        invariant
            n == lines@.len(),
            i <= n,
            crate::text::char_views(lines@) == all,
            all == pieces(text@, Separator::Newline),
            ids_fit(text@),
            views(table@) == filled(all.take(i as int)),
        decreases n - i,
    {
        assert(all[i as int] == lines@[i as int]@);
        assert(all.take(i + 1).drop_last() =~= all.take(i as int));
        assert(all.take(i + 1).last() == all[i as int]);
        let ghost before = views(table@);
        if let Some((symbol, id)) = read_entry(&lines[i]) {
            assert(entry(all[i as int]) == Some((symbol@, id as nat)));
            assert(id < usize::MAX);
            if id < table.len() {
                table.set(id, symbol);
                assert(views(table@) =~= before.update(id as int, symbol@));
            } else {
                let ghost held = table@.len();
                while table.len() < id
                    invariant
                        held <= table@.len() <= id,
                        before.len() == held,
                        views(table@) == before + Seq::new(
                            (table@.len() - held) as nat,
                            |k: int| Seq::<char>::empty(),
                        ),
                    decreases id - table@.len(),
                {
                    let ghost grown = views(table@);
                    table.push(String::new());
                    assert(views(table@) =~= grown.push(Seq::empty()));
                    assert(views(table@) =~= before + Seq::new(
                        (table@.len() - held) as nat,
                        |k: int| Seq::<char>::empty(),
                    ));
                }
                let ghost grown = views(table@);
                table.push(symbol);
                assert(views(table@) =~= grown.push(symbol@));
                assert(views(table@) =~= put(before, id as nat, symbol@));
            }
        }
        i += 1;
    }
    assert(all.take(n as int) =~= all);
    table
}

/// How reading the vocabulary of `backend` ends, given what reading the file
/// gave: an error of the file system, or its contents.
pub open spec fn loaded_tokens(backend: Seq<char>, read: Result<Seq<char>, Seq<char>>) -> Result<
    Seq<Seq<char>>,
    ErrorView,
> {
    match read {
        Err(e) => Err(ErrorView::Load(backend + " tokens.txt: "@ + e)),
        Ok(text) => if token_table(text).len() == 0 {
            Err(ErrorView::Load(backend + " tokens.txt is empty or malformed"@))
        } else {
            Ok(token_table(text))
        },
    }
}

/// What reading a text file gave, over sequences.
pub open spec fn read_view(read: Result<String, String>) -> Result<Seq<char>, Seq<char>> {
    match read {
        Ok(text) => Ok(text@),
        Err(e) => Err(e@),
    }
}

/// Load the vocabulary of `backend` from what reading `tokens.txt` gave.
pub fn load_tokens(backend: &str, read: &Result<String, String>) -> (r: Result<
    Vec<String>,
    AsrError,
>)
    requires
        read matches Ok(text) ==> ids_fit(text@),
    ensures
        r matches Ok(table) ==> loaded_tokens(backend@, read_view(*read)) == Ok::<_, ErrorView>(
            views(table@),
        ) && table@.len() > 0,
        r matches Err(e) ==> loaded_tokens(backend@, read_view(*read)) == Err::<
            Seq<Seq<char>>,
            _,
        >(e@),
{
    match read {
        Err(e) => {
            let head = concat(backend, " tokens.txt: ");
            Err(AsrError::Load(concat(head.as_str(), e.as_str())))
        },
        Ok(text) => {
            let table = parse_tokens(text.as_str());
            assert(views(table@).len() == table@.len());
            if table.len() == 0 {
                Err(AsrError::Load(concat(backend, " tokens.txt is empty or malformed")))
            } else {
                Ok(table)
            }
        },
    }
}

/// The last line that gives an id decides its symbol, and an id that no line
/// gives has an empty symbol.
pub proof fn law_last_line_wins(lines: Seq<Seq<char>>, id: int)
    requires
        0 <= id < filled(lines).len(),
    ensures
        ({
            ||| filled(lines)[id].len() == 0 && forall|k: int|
                0 <= k < lines.len() ==> !(#[trigger] entry(lines[k]) matches Some((_, at)) && at
                    == id)
            ||| exists|k: int|
                0 <= k < lines.len() && #[trigger] entry(lines[k]) == Some(
                    (filled(lines)[id], id as nat),
                ) && forall|l: int|
                    k < l < lines.len() ==> !(#[trigger] entry(lines[l]) matches Some((_, at)) && at
                        == id)
        }),
    decreases lines.len(), 1int,
{
    let rest = lines.drop_last();
    let before = filled(rest);
    assert(forall|k: int| 0 <= k < rest.len() ==> #[trigger] rest[k] == lines[k]);
    match entry(lines.last()) {
        Some((symbol, at)) => {
            if at == id {
                assert(filled(lines)[id] == symbol);
                assert(entry(lines[lines.len() - 1]) == Some((filled(lines)[id], id as nat)));
            } else if id < before.len() {
                assert(filled(lines)[id] == before[id]);
                lemma_carry(lines, id);
            } else {
                assert(filled(lines)[id].len() == 0);
                assert forall|k: int| 0 <= k < lines.len() implies !(#[trigger] entry(
                    lines[k],
                ) matches Some((_, a)) && a == id) by {
                    if k < rest.len() {
                        assert(entry(rest[k]) == entry(lines[k]));
                        lemma_ids_below(rest, k);
                    }
                }
            }
        },
        None => {
            lemma_carry(lines, id);
        },
    }
}

/// What holds of `id` before the last line holds after it, when that line gives
/// another id.
proof fn lemma_carry(lines: Seq<Seq<char>>, id: int)
    requires
        lines.len() > 0,
        0 <= id < filled(lines.drop_last()).len(),
        filled(lines)[id] == filled(lines.drop_last())[id],
        !(entry(lines.last()) matches Some((_, at)) && at == id),
    ensures
        ({
            ||| filled(lines)[id].len() == 0 && forall|k: int|
                0 <= k < lines.len() ==> !(#[trigger] entry(lines[k]) matches Some((_, at)) && at
                    == id)
            ||| exists|k: int|
                0 <= k < lines.len() && #[trigger] entry(lines[k]) == Some(
                    (filled(lines)[id], id as nat),
                ) && forall|l: int|
                    k < l < lines.len() ==> !(#[trigger] entry(lines[l]) matches Some((_, at)) && at
                        == id)
        }),
    decreases lines.len(), 0int,
{
    let rest = lines.drop_last();
    law_last_line_wins(rest, id);
    assert(forall|k: int| 0 <= k < rest.len() ==> #[trigger] rest[k] == lines[k]);
    if exists|k: int|
        0 <= k < rest.len() && #[trigger] entry(rest[k]) == Some((filled(rest)[id], id as nat))
            && forall|l: int|
            k < l < rest.len() ==> !(#[trigger] entry(rest[l]) matches Some((_, at)) && at == id) {
        let k = choose|k: int|
            0 <= k < rest.len() && #[trigger] entry(rest[k]) == Some((filled(rest)[id], id as nat))
                && forall|l: int|
                k < l < rest.len() ==> !(#[trigger] entry(rest[l]) matches Some((_, at)) && at
                    == id);
        assert(entry(lines[k]) == Some((filled(lines)[id], id as nat)));
        assert forall|l: int| k < l < lines.len() implies !(#[trigger] entry(
            lines[l],
        ) matches Some((_, at)) && at == id) by {
            if l < rest.len() {
                assert(entry(rest[l]) == entry(lines[l]));
            }
        }
    } else {
        assert forall|k: int| 0 <= k < lines.len() implies !(#[trigger] entry(
            lines[k],
        ) matches Some((_, at)) && at == id) by {
            if k < rest.len() {
                assert(entry(rest[k]) == entry(lines[k]));
            }
        }
    }
}

proof fn lemma_ids_below(lines: Seq<Seq<char>>, k: int)
    requires
        0 <= k < lines.len(),
    ensures
        entry(lines[k]) matches Some((_, at)) ==> at < filled(lines).len(),
    decreases lines.len(),
{
    if k < lines.len() - 1 {
        lemma_ids_below(lines.drop_last(), k);
        assert(lines.drop_last()[k] == lines[k]);
    }
}

// --- ids back to text -------------------------------------------------------------

/// The marker that SentencePiece puts where a word begins.
pub const WORD_START: char = '\u{2581}';

/// `s` with a space for each word-start marker.
pub open spec fn spaced(s: Seq<char>) -> Seq<char> {
    s.map_values(
        |c: char|
            if c == WORD_START {
                ' '
            } else {
                c
            },
    )
}

/// The byte that a byte token `<0xNN>` stands for, with two hexadecimal digits in
/// either case for `NN`.
pub open spec fn byte_token(token: Seq<char>) -> Option<nat> {
    if token.len() == 6 && token.take(3) == seq!['<', '0', 'x'] && token[5] == '>' {
        match (digit_value(token[3], 16), digit_value(token[4], 16)) {
            (Some(high), Some(low)) => Some(16 * high + low),
            _ => None,
        }
    } else {
        None
    }
}

/// The bytes of a token: that of a byte token, the UTF-8 text of any other, with a
/// space for each word-start marker.
pub open spec fn token_bytes(token: Seq<char>) -> Seq<u8> {
    match byte_token(token) {
        Some(b) => seq![b as u8],
        None => encode_utf8(spaced(token)),
    }
}

/// The symbol of `id`; an id outside the table has none.
pub open spec fn symbol(id: int, table: Seq<Seq<char>>) -> Option<Seq<char>> {
    if 0 <= id < table.len() {
        Some(table[id])
    } else {
        None
    }
}

/// The bytes of the tokens `ids`, one after the other.
pub open spec fn joined_bytes(ids: Seq<int>, table: Seq<Seq<char>>) -> Seq<u8>
    decreases ids.len(),
{
    if ids.len() == 0 {
        Seq::empty()
    } else {
        let before = joined_bytes(ids.drop_last(), table);
        match symbol(ids.last(), table) {
            Some(token) => before + token_bytes(token),
            None => before,
        }
    }
}

/// The text of the tokens `ids`.
pub open spec fn detokenized(ids: Seq<int>, table: Seq<Seq<char>>) -> Seq<char> {
    trimmed(lossy_text(joined_bytes(ids, table)))
}

/// No token of `ids` is a byte token.
pub open spec fn plain(ids: Seq<int>, table: Seq<Seq<char>>) -> bool {
    forall|i: int|
        0 <= i < ids.len() ==> (#[trigger] symbol(ids[i], table) matches Some(token) ==> byte_token(
            token,
        ) is None)
}

/// The symbols of `ids` one after the other.
pub open spec fn joined_text(ids: Seq<int>, table: Seq<Seq<char>>) -> Seq<char>
    decreases ids.len(),
{
    if ids.len() == 0 {
        Seq::empty()
    } else {
        let before = joined_text(ids.drop_last(), table);
        match symbol(ids.last(), table) {
            Some(token) => before + token,
            None => before,
        }
    }
}

/// Encoding goes character by character.
proof fn lemma_encode_concat(a: Seq<char>, b: Seq<char>)
    ensures
        encode_utf8(a + b) == encode_utf8(a) + encode_utf8(b),
    decreases a.len(),
{
    if a.len() == 0 {
        assert(a + b =~= b);
        assert(encode_utf8(a) + encode_utf8(b) =~= encode_utf8(b));
    } else {
        lemma_encode_concat(a.drop_first(), b);
        assert((a + b).drop_first() =~= a.drop_first() + b);
        assert(encode_utf8(a + b) =~= encode_utf8(a) + encode_utf8(b));
    }
}

/// The bytes of tokens that are no byte tokens are the UTF-8 text of the tokens.
pub proof fn law_plain_tokens_are_text(ids: Seq<int>, table: Seq<Seq<char>>)
    requires
        plain(ids, table),
    ensures
        joined_bytes(ids, table) == encode_utf8(spaced(joined_text(ids, table))),
        valid_utf8(joined_bytes(ids, table)),
        decode_utf8(joined_bytes(ids, table)) == spaced(joined_text(ids, table)),
    decreases ids.len(),
{
    if ids.len() > 0 {
        let rest = ids.drop_last();
        assert forall|i: int| 0 <= i < rest.len() implies (#[trigger] symbol(
            rest[i],
            table,
        ) matches Some(token) ==> byte_token(token) is None) by {
            assert(symbol(ids[i], table) == symbol(rest[i], table));
        }
        law_plain_tokens_are_text(rest, table);
        assert(symbol(ids[ids.len() - 1], table) == symbol(ids.last(), table));
        if let Some(token) = symbol(ids.last(), table) {
            let before = joined_text(rest, table);
            lemma_encode_concat(spaced(before), spaced(token));
            assert(spaced(before + token) =~= spaced(before) + spaced(token));
        }
    } else {
        assert(spaced(joined_text(ids, table)) =~= Seq::empty());
    }
    encode_utf8_valid_utf8(spaced(joined_text(ids, table)));
    encode_utf8_decode_utf8(spaced(joined_text(ids, table)));
}

/// Replaces each word-start marker by a space.
pub(crate) fn space_out(s: &str) -> (r: String)
    ensures
        r@ == spaced(s@),
{
    let mut out = String::new();
    assert(spaced(s@.take(0)) =~= Seq::empty());
    for c in it: s.chars()
        invariant
            it.seq() == s@,
            out@ == spaced(s@.take(it.index() as int)),
    {
        let shown: char = if c == WORD_START {
            ' '
        } else {
            c
        };
        out.push(shown);
        assert(out@ =~= spaced(s@.take(it.index() + 1)));
    }
    assert(s@.take(s@.len() as int) =~= s@);
    out
}

/// Parse a SentencePiece byte token `<0xNN>` into its byte value.
pub fn parse_byte_token(tok: &str) -> (r: Option<u8>)
    ensures
        r is Some == byte_token(tok@) is Some,
        r matches Some(b) ==> byte_token(tok@) == Some(b as nat),
{
    let chars = to_chars(tok);
    let n: usize = chars.len();
    if n != 6 || chars[0] != '<' || chars[1] != '0' || chars[2] != 'x' || chars[5] != '>' {
        proof {
            if n == 6 && tok@.take(3) == seq!['<', '0', 'x'] {
                assert(tok@.take(3)[0] == tok@[0]);
                assert(tok@.take(3)[1] == tok@[1]);
                assert(tok@.take(3)[2] == tok@[2]);
            }
        }
        return None;
    }
    assert(tok@.take(3) =~= seq!['<', '0', 'x']);
    match (digit(chars[3], 16), digit(chars[4], 16)) {
        (Some(high), Some(low)) => Some((16 * high + low) as u8),
        _ => None,
    }
}

/// Appends the bytes of `token` to `bytes`.
fn push_token(bytes: &mut Vec<u8>, token: &str)
    ensures
        final(bytes)@ == old(bytes)@ + token_bytes(token@),
{
    match parse_byte_token(token) {
        Some(b) => {
            bytes.push(b);
            assert(bytes@ =~= old(bytes)@ + token_bytes(token@));
        },
        None => {
            let text = space_out(token);
            let encoded: &[u8] = text.as_str().as_bytes();
            bytes.extend_from_slice(encoded);
            assert(bytes@ =~= old(bytes)@ + token_bytes(token@));
        },
    }
}

/// Ids as integers.
pub open spec fn ints(ids: Seq<i64>) -> Seq<int> {
    ids.map_values(|id: i64| id as int)
}

/// Turn token ids into text: a word-start marker becomes a space, byte tokens are
/// reassembled into raw bytes, and the whole is decoded as UTF-8 and trimmed. An
/// id outside the table is passed over.
///
/// Bytes that are no UTF-8 are decoded as [`lossy_text`] says.
pub fn detokenize(ids: &[i64], tokens: &Vec<String>) -> (r: String)
    ensures
        r@ == detokenized(ints(ids@), views(tokens@)),
        plain(ints(ids@), views(tokens@)) ==> r@ == trimmed(
            spaced(joined_text(ints(ids@), views(tokens@))),
        ),
        valid_utf8(joined_bytes(ints(ids@), views(tokens@))) ==> r@ == trimmed(
            decode_utf8(joined_bytes(ints(ids@), views(tokens@))),
        ),
{
    let ghost all = ints(ids@);
    let ghost table = views(tokens@);
    let mut bytes: Vec<u8> = Vec::new();
    let n: usize = ids.len();
    let mut i: usize = 0;
    assert(all.take(0) =~= Seq::empty());
    assert(bytes@ =~= joined_bytes(all.take(0), table));
    while i < n
        invariant
            n == ids@.len(),
            i <= n,
            all == ints(ids@),
            table == views(tokens@),
            bytes@ == joined_bytes(all.take(i as int), table),
        decreases n - i,
    {
        assert(all.take(i + 1).drop_last() =~= all.take(i as int));
        assert(all.take(i + 1).last() == ids@[i as int]);
        let id: i64 = ids[i];
        if id >= 0 && (id as u64) < tokens.len() as u64 {
            let at: usize = id as usize;
            assert(table[at as int] == tokens@[at as int]@);
            push_token(&mut bytes, tokens[at].as_str());
        }
        i += 1;
    }
    assert(all.take(n as int) =~= all);
    proof {
        if plain(all, table) {
            law_plain_tokens_are_text(all, table);
        }
    }
    let text = utf8_lossy(bytes.as_slice());
    trim(text.as_str())
}

/// The first place of `symbol` in the table.
pub open spec fn first_place(table: Seq<Seq<char>>, symbol: Seq<char>) -> Option<int>
    decreases table.len(),
{
    if table.len() == 0 {
        None
    } else {
        match first_place(table.drop_last(), symbol) {
            Some(i) => Some(i),
            None => if table.last() == symbol {
                Some(table.len() - 1)
            } else {
                None
            },
        }
    }
}

/// Look up the first place of `symbol`.
pub fn position(tokens: &Vec<String>, symbol: &str) -> (r: Option<usize>)
    ensures
        r is Some == first_place(views(tokens@), symbol@) is Some,
        r matches Some(p) ==> first_place(views(tokens@), symbol@) == Some(p as int) && p
            < tokens@.len(),
{
    let ghost table = views(tokens@);
    let n: usize = tokens.len();
    let mut i: usize = 0;
    assert(table.take(0) =~= Seq::empty());
    while i < n
        invariant
            n == tokens@.len(),
            table == views(tokens@),
            i <= n,
            first_place(table.take(i as int), symbol@) is None,
        decreases n - i,
    {
        assert(table.take(i + 1).drop_last() =~= table.take(i as int));
        assert(table.take(i + 1).last() == tokens@[i as int]@);
        if same_text(tokens[i].as_str(), symbol) {
            proof {
                lemma_first_place_stays(table, i + 1, symbol@);
            }
            return Some(i);
        }
        i += 1;
    }
    assert(table.take(n as int) =~= table);
    None
}

proof fn lemma_first_place_stays(table: Seq<Seq<char>>, k: int, symbol: Seq<char>)
    requires
        0 <= k <= table.len(),
        first_place(table.take(k), symbol) is Some,
    ensures
        first_place(table, symbol) == first_place(table.take(k), symbol),
    decreases table.len() - k,
{
    if k < table.len() {
        assert(table.take(k + 1).drop_last() =~= table.take(k));
        lemma_first_place_stays(table, k + 1, symbol);
    } else {
        assert(table.take(k) =~= table);
    }
}

// --- laws ----------------------------------------------------------------------------

/// The ids that stand in a table of `n` symbols.
pub open spec fn known_ids(ids: Seq<int>, n: nat) -> Seq<int> {
    ids.filter(|id: int| 0 <= id < n)
}

/// Joining symbols is putting those of all ids that the table holds end to end.
pub proof fn law_every_symbol_is_joined(ids: Seq<int>, table: Seq<Seq<char>>)
    ensures
        joined_text(ids, table) == known_ids(ids, table.len()).map_values(
            |id: int| table[id],
        ).flatten(),
        joined_bytes(ids, table) == known_ids(ids, table.len()).map_values(
            |id: int| token_bytes(table[id]),
        ).flatten(),
    decreases ids.len(),
{
    reveal(Seq::filter);
    let known = |id: int| 0 <= id < table.len();
    let text = |id: int| table[id];
    let bytes = |id: int| token_bytes(table[id]);
    if ids.len() == 0 {
        assert(ids.filter(known).map_values(text) =~= Seq::empty());
        assert(ids.filter(known).map_values(bytes) =~= Seq::empty());
    } else {
        let rest = ids.drop_last();
        law_every_symbol_is_joined(rest, table);
        let before = rest.filter(known);
        let id = ids.last();
        if known(id) {
            assert(ids.filter(known) == before.push(id));
            assert(before.push(id).map_values(text) =~= before.map_values(text).push(table[id]));
            assert(before.push(id).map_values(bytes) =~= before.map_values(bytes).push(
                token_bytes(table[id]),
            ));
            before.map_values(text).lemma_flatten_push(table[id]);
            before.map_values(bytes).lemma_flatten_push(token_bytes(table[id]));
        }
    }
}

/// What a call of [`parse_byte_token`] gives: a byte for `<0x`, two hexadecimal digits
/// in either case and `>`, and for nothing else; and that byte is the one that the
/// digits write.
pub proof fn law_byte_tokens(tok: &str, r: Option<u8>)
    requires
        call_ensures(parse_byte_token, (tok,), r),
    ensures
        r is Some <==> tok@.len() == 6 && tok@[0] == '<' && tok@[1] == '0' && tok@[2] == 'x'
            && hex(tok@[3]) is Some && hex(tok@[4]) is Some && tok@[5] == '>',
        r matches Some(b) ==> b == 16 * hex(tok@[3])->0 + hex(tok@[4])->0,
{
    let t = tok@;
    if t.len() == 6 {
        if t[0] == '<' && t[1] == '0' && t[2] == 'x' {
            assert(t.take(3) =~= seq!['<', '0', 'x']);
        } else if t.take(3) == seq!['<', '0', 'x'] {
            assert(t.take(3)[0] == t[0] && t.take(3)[1] == t[1] && t.take(3)[2] == t[2]);
        }
        assert(digit_value(t[3], 16) is Some <==> hex(t[3]) is Some);
        assert(digit_value(t[4], 16) is Some <==> hex(t[4]) is Some);
    }
}

/// The value of a hexadecimal digit.
pub open spec fn hex(c: char) -> Option<int> {
    let u = c as u32;
    if 48 <= u <= 57 {
        Some(u - 48)
    } else if 97 <= u <= 102 {
        Some(u - 87)
    } else if 65 <= u <= 70 {
        Some(u - 55)
    } else {
        None
    }
}

/// What a call of [`detokenize`] gives: the bytes of all tokens that the table holds,
/// put end to end, a byte token standing for its byte and any other for its text with
/// a space for each word start, read as text and trimmed.
pub proof fn law_detokenized(ids: &[i64], tokens: &Vec<String>, r: String)
    requires
        call_ensures(detokenize, (ids, tokens), r),
    ensures
        r@ == trimmed(
            lossy_text(
                known_ids(ids@.map_values(|id: i64| id as int), tokens@.len()).map_values(
                    |id: int|
                        match byte_token(tokens@[id]@) {
                            Some(b) => seq![b as u8],
                            None => encode_utf8(
                                tokens@[id]@.map_values(
                                    |c: char|
                                        if c == '\u{2581}' {
                                            ' '
                                        } else {
                                            c
                                        },
                                ),
                            ),
                        },
                ).flatten(),
            ),
        ),
{
    let all = ids@.map_values(|id: i64| id as int);
    let table = views(tokens@);
    assert(all =~= ints(ids@));
    law_every_symbol_is_joined(all, table);
    let known = known_ids(all, tokens@.len());
    let ours = |id: int|
        match byte_token(tokens@[id]@) {
            Some(b) => seq![b as u8],
            None => encode_utf8(
                tokens@[id]@.map_values(
                    |c: char|
                        if c == '\u{2581}' {
                            ' '
                        } else {
                            c
                        },
                ),
            ),
        };
    lemma_known(all, table.len());
    assert forall|i: int| 0 <= i < known.len() implies #[trigger] known.map_values(ours)[i]
        == known.map_values(|id: int| token_bytes(table[id]))[i] by {
        let id = known[i];
        assert(table[id] == tokens@[id]@);
        assert(tokens@[id]@.map_values(
            |c: char|
                if c == '\u{2581}' {
                    ' '
                } else {
                    c
                },
        ) =~= spaced(table[id]));
    }
    assert(known.map_values(ours) =~= known.map_values(|id: int| token_bytes(table[id])));
}

proof fn lemma_known(ids: Seq<int>, n: nat)
    ensures
        forall|i: int| 0 <= i < known_ids(ids, n).len() ==> 0 <= #[trigger] known_ids(ids, n)[i] < n,
    decreases ids.len(),
{
    reveal(Seq::filter);
    if ids.len() > 0 {
        lemma_known(ids.drop_last(), n);
    }
}

/// A line that gives `symbol` the id `id`.
pub open spec fn vocabulary_line(symbol: Seq<char>, id: nat) -> Seq<char> {
    symbol.push(' ') + decimal(id)
}

/// A file with one line for each symbol, in order.
pub open spec fn vocabulary_file(symbols: Seq<Seq<char>>) -> Seq<char>
    decreases symbols.len(),
{
    if symbols.len() == 0 {
        Seq::empty()
    } else {
        (vocabulary_file(symbols.drop_last()) + vocabulary_line(
            symbols.last(),
            (symbols.len() - 1) as nat,
        )).push('\n')
    }
}

/// A line that gives a symbol its id is read so, whatever the symbol holds.
pub proof fn law_line_is_read_back(symbol: Seq<char>, id: nat)
    requires
        id <= usize::MAX,
    ensures
        entry(vocabulary_line(symbol, id)) == Some((symbol, id)),
{
    let line = vocabulary_line(symbol, id);
    let digits = decimal(id);
    law_written_numbers_are_read_back(id);
    let last = digits[digits.len() - 1];
    assert('0' <= last && last <= '9');
    assert(line.last() == last);
    assert(without_returns(line) == line);
    let p = symbol.len() as int;
    assert(line[p] == ' ');
    assert forall|i: int| p < i < line.len() implies !gap(#[trigger] line[i]) by {
        let c = digits[i - p - 1];
        assert('0' <= c && c <= '9');
        assert(line[i] == c);
    }
    lemma_last_gap(line, p);
    assert(line.skip(p + 1) =~= digits);
    assert(line.take(p) =~= symbol);
}

proof fn lemma_last_gap(s: Seq<char>, p: int)
    requires
        0 <= p < s.len(),
        gap(s[p]),
        forall|i: int| p < i < s.len() ==> !gap(#[trigger] s[i]),
    ensures
        last_gap(s) == Some(p),
    decreases s.len(),
{
    if p < s.len() - 1 {
        assert(!gap(s[s.len() - 1]));
        let t = s.drop_last();
        assert forall|i: int| p < i < t.len() implies !gap(#[trigger] t[i]) by {
            assert(t[i] == s[i]);
        }
        lemma_last_gap(t, p);
    }
}

/// A vocabulary that is written is read back: a file with a line for each symbol gives
/// the table of those symbols.
pub proof fn law_vocabulary_is_read_back(symbols: Seq<Seq<char>>)
    requires
        symbols.len() <= usize::MAX,
        forall|i: int, j: int|
            0 <= i < symbols.len() && 0 <= j < symbols[i].len() ==> #[trigger] symbols[i][j] != '\n',
    ensures
        token_table(vocabulary_file(symbols)) == symbols,
{
    lemma_read_back(symbols);
    let lines = pieces(vocabulary_file(symbols), Separator::Newline);
    assert(filled(lines.drop_last()) == symbols);
    assert(entry(Seq::<char>::empty()) is None);
}

proof fn lemma_read_back(symbols: Seq<Seq<char>>)
    requires
        symbols.len() <= usize::MAX,
        forall|i: int, j: int|
            0 <= i < symbols.len() && 0 <= j < symbols[i].len() ==> #[trigger] symbols[i][j] != '\n',
    ensures
        pieces(vocabulary_file(symbols), Separator::Newline).len() > 0,
        pieces(vocabulary_file(symbols), Separator::Newline).last() == Seq::<char>::empty(),
        filled(pieces(vocabulary_file(symbols), Separator::Newline).drop_last()) == symbols,
    decreases symbols.len(),
{
    let sep = Separator::Newline;
    if symbols.len() == 0 {
        let lines = pieces(vocabulary_file(symbols), sep);
        assert(lines.drop_last() =~= Seq::empty());
        assert(filled(lines.drop_last()) =~= symbols);
    } else {
        let rest = symbols.drop_last();
        assert forall|i: int, j: int|
            0 <= i < rest.len() && 0 <= j < rest[i].len() implies #[trigger] rest[i][j] != '\n' by {
            assert(symbols[i][j] != '\n');
        }
        lemma_read_back(rest);
        let n = (symbols.len() - 1) as nat;
        let symbol = symbols.last();
        let file = vocabulary_file(rest);
        let line = vocabulary_line(symbol, n);
        law_written_numbers_are_read_back(n);
        assert forall|i: int| 0 <= i < line.len() implies !sep.splits(#[trigger] line[i]) by {
            if i < symbol.len() {
                assert(symbols[n as int][i] != '\n');
            } else if i > symbol.len() {
                let c = decimal(n)[i - symbol.len() - 1];
                assert('0' <= c && c <= '9');
            }
        }
        law_lines_are_split(file, line, '\n', sep);
        let before = pieces(file, sep);
        assert(before.last() + line =~= line);
        let lines = pieces(vocabulary_file(symbols), sep);
        assert(lines.drop_last() =~= before.drop_last().push(line));
        assert(lines.drop_last().drop_last() =~= before.drop_last());
        law_line_is_read_back(symbol, n);
        assert(put(rest, n, symbol) =~= symbols);
    }
}

/// A symbol is found where it first stands, and only when it stands somewhere.
pub proof fn law_first_place(table: Seq<Seq<char>>, wanted: Seq<char>)
    ensures
        first_place(table, wanted) matches Some(p) ==> 0 <= p < table.len() && table[p] == wanted
            && forall|i: int| 0 <= i < p ==> #[trigger] table[i] != wanted,
        first_place(table, wanted) is None ==> !table.contains(wanted),
    decreases table.len(),
{
    if table.len() > 0 {
        law_first_place(table.drop_last(), wanted);
        let rest = table.drop_last();
        assert(forall|i: int| 0 <= i < rest.len() ==> #[trigger] rest[i] == table[i]);
        if first_place(rest, wanted) is None {
            assert forall|i: int| 0 <= i < rest.len() implies #[trigger] table[i] != wanted by {
                assert(rest[i] == table[i]);
                if table[i] == wanted {
                    assert(rest.contains(wanted));
                }
            }
        } else {
            let p = first_place(rest, wanted)->0;
            assert forall|i: int| 0 <= i < p implies #[trigger] table[i] != wanted by {
                assert(rest[i] == table[i]);
            }
        }
    }
    if first_place(table, wanted) is None && table.contains(wanted) {
        let i = choose|i: int| 0 <= i < table.len() && table[i] == wanted;
        if i < table.len() - 1 {
            assert(table.drop_last()[i] == wanted);
        }
    }
}

} // verus!
