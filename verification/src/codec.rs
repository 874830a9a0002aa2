//! The persistence codec: renders the two lists as one JSON document and
//! reads such a document back.
//!
//! The document is a single JSON object with the fixed shape
//! `{"todos":[{"value":"...","id":0},...],"completed":[...]}`.
//! The writer emits the canonical rendering (no extra whitespace); the reader
//! accepts exactly the canonical rendering and rejects everything else.

use vstd::prelude::*;
use crate::state::{Item, ItemView, items_view};

verus! {

/// The opening of the document up to and including the `[` of the pending list.
pub open spec fn lit_doc_open() -> Seq<char> {
    seq!['{', '"', 't', 'o', 'd', 'o', 's', '"', ':', '[']
}

/// The middle of the document: closes the pending list and opens the
/// completed list.
pub open spec fn lit_doc_mid() -> Seq<char> {
    seq![']', ',', '"', 'c', 'o', 'm', 'p', 'l', 'e', 't', 'e', 'd', '"', ':', '[']
}

/// The end of the document: closes the completed list and the object.
pub open spec fn lit_doc_close() -> Seq<char> {
    seq![']', '}']
}

/// The opening of one item up to and including the quote of its text.
pub open spec fn lit_item_open() -> Seq<char> {
    seq!['{', '"', 'v', 'a', 'l', 'u', 'e', '"', ':', '"']
}

/// The middle of one item: closes the text and introduces the id.
pub open spec fn lit_item_mid() -> Seq<char> {
    seq!['"', ',', '"', 'i', 'd', '"', ':']
}

/// The rendering of one character inside a JSON string: the quote, the
/// backslash and the three common control characters take a two-character
/// escape; every other character stands for itself.
pub open spec fn escape_char(c: char) -> Seq<char> {
    if c == '"' {
        seq!['\\', '"']
    } else if c == '\\' {
        seq!['\\', '\\']
    } else if c == '\n' {
        seq!['\\', 'n']
    } else if c == '\t' {
        seq!['\\', 't']
    } else if c == '\r' {
        seq!['\\', 'r']
    } else {
        seq![c]
    }
}

/// The rendering of an item's text: each character escaped, in order.
pub open spec fn ser_text(s: Seq<char>) -> Seq<char>
    decreases s.len(),
{
    if s.len() == 0 {
        Seq::empty()
    } else {
        escape_char(s[0]) + ser_text(s.drop_first())
    }
}

/// The decimal digit with value `d`.
pub open spec fn digit_char(d: int) -> char {
    if d == 0 {
        '0'
    } else if d == 1 {
        '1'
    } else if d == 2 {
        '2'
    } else if d == 3 {
        '3'
    } else if d == 4 {
        '4'
    } else if d == 5 {
        '5'
    } else if d == 6 {
        '6'
    } else if d == 7 {
        '7'
    } else if d == 8 {
        '8'
    } else {
        '9'
    }
}

/// The decimal rendering of `n`, most significant digit first, without
/// leading zeros (`0` itself is the single digit `0`).
pub open spec fn ser_u32(n: u32) -> Seq<char>
    decreases n,
{
    if n < 10 {
        seq![digit_char(n as int)]
    } else {
        ser_u32(n / 10).push(digit_char((n % 10) as int))
    }
}

/// The rendering of one item.
pub open spec fn ser_item(it: ItemView) -> Seq<char> {
    lit_item_open() + ser_text(it.value) + lit_item_mid() + ser_u32(it.id) + seq!['}']
}

/// The rendering of every item after the first: each preceded by a comma.
pub open spec fn ser_items_rest(s: Seq<ItemView>) -> Seq<char>
    decreases s.len(),
{
    if s.len() == 0 {
        Seq::empty()
    } else {
        seq![','] + ser_item(s[0]) + ser_items_rest(s.drop_first())
    }
}

/// The rendering of a list's items, comma-separated (without the brackets).
pub open spec fn ser_items(s: Seq<ItemView>) -> Seq<char>
    decreases s.len(),
{
    if s.len() == 0 {
        Seq::empty()
    } else {
        ser_item(s[0]) + ser_items_rest(s.drop_first())
    }
}

/// The canonical rendering of the whole document.
pub open spec fn ser_doc(pending: Seq<ItemView>, completed: Seq<ItemView>) -> Seq<char> {
    lit_doc_open() + ser_items(pending) + lit_doc_mid() + ser_items(completed) + lit_doc_close()
}

proof fn lemma_ser_text_push(s: Seq<char>, c: char)
    ensures
        ser_text(s.push(c)) == ser_text(s) + escape_char(c),
    decreases s.len(),
{
    if s.len() == 0 {
        assert(s.push(c)[0] == c);
        assert(s.push(c).drop_first() =~= Seq::<char>::empty());
        assert(ser_text(Seq::<char>::empty()) == Seq::<char>::empty());
        assert(ser_text(s.push(c)) =~= ser_text(s) + escape_char(c));
    } else {
        assert(s.push(c)[0] == s[0]);
        assert(s.push(c).drop_first() =~= s.drop_first().push(c));
        lemma_ser_text_push(s.drop_first(), c);
        assert(escape_char(s[0]) + (ser_text(s.drop_first()) + escape_char(c)) =~= (escape_char(
            s[0],
        ) + ser_text(s.drop_first())) + escape_char(c));
    }
}

proof fn lemma_ser_items_rest_push(s: Seq<ItemView>, x: ItemView)
    ensures
        ser_items_rest(s.push(x)) == ser_items_rest(s) + seq![','] + ser_item(x),
    decreases s.len(),
{
    if s.len() == 0 {
        assert(s.push(x)[0] == x);
        assert(s.push(x).drop_first() =~= Seq::<ItemView>::empty());
        assert(ser_items_rest(Seq::<ItemView>::empty()) == Seq::<char>::empty());
        assert(ser_items_rest(s.push(x)) =~= ser_items_rest(s) + seq![','] + ser_item(x));
    } else {
        assert(s.push(x)[0] == s[0]);
        assert(s.push(x).drop_first() =~= s.drop_first().push(x));
        lemma_ser_items_rest_push(s.drop_first(), x);
        assert(seq![','] + ser_item(s[0]) + (ser_items_rest(s.drop_first()) + seq![','] + ser_item(
            x,
        )) =~= (seq![','] + ser_item(s[0]) + ser_items_rest(s.drop_first())) + seq![','] + ser_item(
            x,
        ));
    }
}

proof fn lemma_ser_items_push(s: Seq<ItemView>, x: ItemView)
    ensures
        s.len() == 0 ==> ser_items(s.push(x)) == ser_item(x),
        s.len() > 0 ==> ser_items(s.push(x)) == ser_items(s) + seq![','] + ser_item(x),
{
    if s.len() == 0 {
        assert(s.push(x)[0] == x);
        assert(s.push(x).drop_first() =~= Seq::<ItemView>::empty());
        assert(ser_items_rest(Seq::<ItemView>::empty()) == Seq::<char>::empty());
        assert(ser_items(s.push(x)) =~= ser_item(x));
    } else {
        assert(s.push(x)[0] == s[0]);
        assert(s.push(x).drop_first() =~= s.drop_first().push(x));
        lemma_ser_items_rest_push(s.drop_first(), x);
        assert(ser_item(s[0]) + (ser_items_rest(s.drop_first()) + seq![','] + ser_item(x)) =~= (
        ser_item(s[0]) + ser_items_rest(s.drop_first())) + seq![','] + ser_item(x));
    }
}

fn push_doc_open(out: &mut String)
    ensures
        final(out)@ == old(out)@ + lit_doc_open(),
{
    proof {
        reveal_strlit("{\"todos\":[");
        assert("{\"todos\":["@ =~= lit_doc_open());
    }
    out.append("{\"todos\":[");
}

fn push_doc_mid(out: &mut String)
    ensures
        final(out)@ == old(out)@ + lit_doc_mid(),
{
    proof {
        reveal_strlit("],\"completed\":[");
        assert("],\"completed\":["@ =~= lit_doc_mid());
    }
    out.append("],\"completed\":[");
}

fn push_doc_close(out: &mut String)
    ensures
        final(out)@ == old(out)@ + lit_doc_close(),
{
    proof {
        reveal_strlit("]}");
        assert("]}"@ =~= lit_doc_close());
    }
    out.append("]}");
}

fn push_escaped_char(out: &mut String, s: &str, i: usize)
    requires
        i < s@.len(),
        i < usize::MAX,
    ensures
        final(out)@ == old(out)@ + escape_char(s@[i as int]),
{
    let c = s.get_char(i);
    if c == '"' {
        proof {
            reveal_strlit("\\\"");
            assert("\\\""@ =~= escape_char('"'));
        }
        out.append("\\\"");
    } else if c == '\\' {
        proof {
            reveal_strlit("\\\\");
            assert("\\\\"@ =~= escape_char('\\'));
        }
        out.append("\\\\");
    } else if c == '\n' {
        proof {
            reveal_strlit("\\n");
            assert("\\n"@ =~= escape_char('\n'));
        }
        out.append("\\n");
    } else if c == '\t' {
        proof {
            reveal_strlit("\\t");
            assert("\\t"@ =~= escape_char('\t'));
        }
        out.append("\\t");
    } else if c == '\r' {
        proof {
            reveal_strlit("\\r");
            assert("\\r"@ =~= escape_char('\r'));
        }
        out.append("\\r");
    } else {
        let one = s.substring_char(i, i + 1);
        proof {
            assert(one@ =~= escape_char(s@[i as int]));
        }
        out.append(one);
    }
}

fn push_text(out: &mut String, s: &str)
    ensures
        final(out)@ == old(out)@ + ser_text(s@),
{
    let n = s.unicode_len();
    let mut i: usize = 0;
    proof {
        assert(s@.take(0) =~= Seq::<char>::empty());
        assert(out@ =~= out@ + ser_text(s@.take(0)));
    }
    while i < n
        invariant
            0 <= i <= n,
            n == s@.len(),
            out@ == old(out)@ + ser_text(s@.take(i as int)),
        decreases n - i,
    {
        proof {
            assert(s@.take(i + 1) =~= s@.take(i as int).push(s@[i as int]));
            lemma_ser_text_push(s@.take(i as int), s@[i as int]);
        }
        push_escaped_char(out, s, i);
        i = i + 1;
    }
    proof {
        assert(s@.take(n as int) =~= s@);
    }
}

fn push_digit(out: &mut String, d: u32)
    requires
        d < 10,
    ensures
        final(out)@ == old(out)@ + seq![digit_char(d as int)],
{
    if d == 0 {
        proof {
            reveal_strlit("0");
            assert("0"@ =~= seq![digit_char(0)]);
        }
        out.append("0");
    } else if d == 1 {
        proof {
            reveal_strlit("1");
            assert("1"@ =~= seq![digit_char(1)]);
        }
        out.append("1");
    } else if d == 2 {
        proof {
            reveal_strlit("2");
            assert("2"@ =~= seq![digit_char(2)]);
        }
        out.append("2");
    } else if d == 3 {
        proof {
            reveal_strlit("3");
            assert("3"@ =~= seq![digit_char(3)]);
        }
        out.append("3");
    } else if d == 4 {
        proof {
            reveal_strlit("4");
            assert("4"@ =~= seq![digit_char(4)]);
        }
        out.append("4");
    } else if d == 5 {
        proof {
            reveal_strlit("5");
            assert("5"@ =~= seq![digit_char(5)]);
        }
        out.append("5");
    } else if d == 6 {
        proof {
            reveal_strlit("6");
            assert("6"@ =~= seq![digit_char(6)]);
        }
        out.append("6");
    } else if d == 7 {
        proof {
            reveal_strlit("7");
            assert("7"@ =~= seq![digit_char(7)]);
        }
        out.append("7");
    } else if d == 8 {
        proof {
            reveal_strlit("8");
            assert("8"@ =~= seq![digit_char(8)]);
        }
        out.append("8");
    } else {
        proof {
            reveal_strlit("9");
            assert("9"@ =~= seq![digit_char(9)]);
        }
        out.append("9");
    }
}

fn push_u32(out: &mut String, n: u32)
    ensures
        final(out)@ == old(out)@ + ser_u32(n),
    decreases n,
{
    if n >= 10 {
        push_u32(out, n / 10);
        push_digit(out, n % 10);
        proof {
            assert(old(out)@ + ser_u32(n / 10) + seq![digit_char((n % 10) as int)] =~= old(out)@
                + ser_u32(n));
        }
    } else {
        push_digit(out, n);
    }
}

fn push_item(out: &mut String, it: &Item)
    ensures
        final(out)@ == old(out)@ + ser_item(it@),
{
    proof {
        reveal_strlit("{\"value\":\"");
        assert("{\"value\":\""@ =~= lit_item_open());
        reveal_strlit("\",\"id\":");
        assert("\",\"id\":"@ =~= lit_item_mid());
        reveal_strlit("}");
        assert("}"@ =~= seq!['}']);
    }
    out.append("{\"value\":\"");
    push_text(out, it.value.as_str());
    out.append("\",\"id\":");
    push_u32(out, it.id);
    out.append("}");
    proof {
        assert(old(out)@ + lit_item_open() + ser_text(it@.value) + lit_item_mid() + ser_u32(it@.id)
            + seq!['}'] =~= old(out)@ + ser_item(it@));
    }
}

fn push_items(out: &mut String, items: &Vec<Item>)
    ensures
        final(out)@ == old(out)@ + ser_items(items_view(items@)),
{
    let ghost ivs = items_view(items@);
    let n = items.len();
    let mut i: usize = 0;
    proof {
        assert(ivs.take(0) =~= Seq::<ItemView>::empty());
        assert(out@ =~= out@ + ser_items(ivs.take(0)));
    }
    while i < n
        invariant
            0 <= i <= n,
            n == items@.len(),
            ivs == items_view(items@),
            out@ == old(out)@ + ser_items(ivs.take(i as int)),
        decreases n - i,
    {
        proof {
            assert(ivs.take(i + 1) =~= ivs.take(i as int).push(ivs[i as int]));
            lemma_ser_items_push(ivs.take(i as int), ivs[i as int]);
        }
        if i > 0 {
            proof {
                reveal_strlit(",");
                assert(","@ =~= seq![',']);
            }
            out.append(",");
            push_item(out, &items[i]);
            proof {
                assert(out@ =~= old(out)@ + (ser_items(ivs.take(i as int)) + seq![','] + ser_item(
                    ivs[i as int],
                )));
            }
        } else {
            push_item(out, &items[i]);
        }
        i = i + 1;
    }
    proof {
        assert(ivs.take(n as int) =~= ivs);
    }
}

/// Render the two lists as the canonical document text.
pub fn serialize_document(pending: &Vec<Item>, completed: &Vec<Item>) -> (r: String)
    ensures
        r@ == ser_doc(items_view(pending@), items_view(completed@)),
{
    let mut out = String::new();
    push_doc_open(&mut out);
    push_items(&mut out, pending);
    push_doc_mid(&mut out);
    push_items(&mut out, completed);
    push_doc_close(&mut out);
    proof {
        assert(out@ =~= ser_doc(items_view(pending@), items_view(completed@)));
    }
    out
}

/// The document text was not the canonical rendering of any list pair.
#[derive(Clone, Copy, Debug)]
pub struct DeserializeError;

/// The key that opens the document, up to the pending list's bracket.
pub open spec fn lit_key_todos() -> Seq<char> {
    seq!['{', '"', 't', 'o', 'd', 'o', 's', '"', ':']
}

/// The key that separates the two lists, between the brackets.
pub open spec fn lit_key_completed() -> Seq<char> {
    seq![',', '"', 'c', 'o', 'm', 'p', 'l', 'e', 't', 'e', 'd', '"', ':']
}

/// `lit` occurs in `s` at position `pos`.
pub open spec fn at_lit(s: Seq<char>, pos: int, lit: Seq<char>) -> bool {
    &&& 0 <= pos
    &&& pos + lit.len() <= s.len()
    &&& s.subrange(pos, pos + lit.len()) == lit
}

/// A decimal digit.
pub open spec fn is_digit(c: char) -> bool {
    ||| c == '0'
    ||| c == '1'
    ||| c == '2'
    ||| c == '3'
    ||| c == '4'
    ||| c == '5'
    ||| c == '6'
    ||| c == '7'
    ||| c == '8'
    ||| c == '9'
}

/// The value of a decimal digit (ten for anything else).
pub open spec fn digit_val(c: char) -> int {
    if c == '0' {
        0
    } else if c == '1' {
        1
    } else if c == '2' {
        2
    } else if c == '3' {
        3
    } else if c == '4' {
        4
    } else if c == '5' {
        5
    } else if c == '6' {
        6
    } else if c == '7' {
        7
    } else if c == '8' {
        8
    } else if c == '9' {
        9
    } else {
        10
    }
}

/// The first position at or after `pos` holding no digit.
pub open spec fn digit_run_end(s: Seq<char>, pos: int) -> int
    decreases s.len() - pos
        when 0 <= pos <= s.len()
{
    if pos < s.len() && is_digit(s[pos]) {
        digit_run_end(s, pos + 1)
    } else {
        pos
    }
}

/// The value of a digit sequence read in base ten.
pub open spec fn digits_val(d: Seq<char>) -> int
    decreases d.len(),
{
    if d.len() == 0 {
        0
    } else {
        digits_val(d.drop_last()) * 10 + digit_val(d.last())
    }
}

/// Ten to the power `k`.
pub open spec fn pow10(k: nat) -> int
    decreases k,
{
    if k == 0 {
        1
    } else {
        10 * pow10((k - 1) as nat)
    }
}

/// Reading an id at `pos`: either the single digit `0`, or a maximal run of
/// digits with no leading zero whose value fits a `u32`; anything else fails.
pub open spec fn parse_u32(s: Seq<char>, pos: int) -> Option<(u32, int)> {
    if !(0 <= pos < s.len() && is_digit(s[pos])) {
        Option::None
    } else if s[pos] == '0' {
        Option::Some((0u32, pos + 1))
    } else {
        let e = digit_run_end(s, pos);
        let v = digits_val(s.subrange(pos, e));
        if v <= u32::MAX {
            Option::Some((v as u32, e))
        } else {
            Option::None
        }
    }
}

/// The character an escape letter stands for.
pub open spec fn unescape_char(c: char) -> Option<char> {
    if c == '"' {
        Option::Some('"')
    } else if c == '\\' {
        Option::Some('\\')
    } else if c == 'n' {
        Option::Some('\n')
    } else if c == 't' {
        Option::Some('\t')
    } else if c == 'r' {
        Option::Some('\r')
    } else {
        Option::None
    }
}

/// Reading an item's text from `pos` up to (not consuming) the closing quote:
/// a backslash introduces one of the five escapes, any other character except
/// the quote stands for itself.
pub open spec fn parse_text(s: Seq<char>, pos: int) -> Option<(Seq<char>, int)>
    decreases s.len() - pos
        when 0 <= pos <= s.len()
{
    if pos >= s.len() {
        Option::None
    } else if s[pos] == '"' {
        Option::Some((Seq::empty(), pos))
    } else if s[pos] == '\\' {
        if pos + 1 < s.len() {
            match unescape_char(s[pos + 1]) {
                Option::None => Option::None,
                Option::Some(c) => match parse_text(s, pos + 2) {
                    Option::None => Option::None,
                    Option::Some((t, e)) => Option::Some((seq![c] + t, e)),
                },
            }
        } else {
            Option::None
        }
    } else {
        match parse_text(s, pos + 1) {
            Option::None => Option::None,
            Option::Some((t, e)) => Option::Some((seq![s[pos]] + t, e)),
        }
    }
}

/// Reading one item object at `pos`.
pub open spec fn parse_item(s: Seq<char>, pos: int) -> Option<(ItemView, int)> {
    if !at_lit(s, pos, lit_item_open()) {
        Option::None
    } else {
        match parse_text(s, pos + lit_item_open().len()) {
            Option::None => Option::None,
            Option::Some((v, p1)) => {
                if at_lit(s, p1, lit_item_mid()) {
                    match parse_u32(s, p1 + lit_item_mid().len()) {
                        Option::None => Option::None,
                        Option::Some((n, p2)) => {
                            if p2 < s.len() && s[p2] == '}' {
                                Option::Some((ItemView { value: v, id: n }, p2 + 1))
                            } else {
                                Option::None
                            }
                        },
                    }
                } else {
                    Option::None
                }
            },
        }
    }
}

/// Reading the items after the first one: `,` then an item, repeatedly, until
/// the closing bracket; `acc` holds what was read so far.
pub open spec fn parse_items_rest(s: Seq<char>, pos: int, acc: Seq<ItemView>) -> Option<
    (Seq<ItemView>, int),
>
    decreases s.len() - pos
        when 0 <= pos <= s.len()
{
    if pos < s.len() && s[pos] == ']' {
        Option::Some((acc, pos + 1))
    } else if pos < s.len() && s[pos] == ',' {
        match parse_item(s, pos + 1) {
            Option::None => Option::None,
            Option::Some((it, p2)) => {
                if pos + 1 < p2 && p2 <= s.len() {
                    parse_items_rest(s, p2, acc.push(it))
                } else {
                    Option::None
                }
            },
        }
    } else {
        Option::None
    }
}

/// Reading a bracketed item list at `pos`.
pub open spec fn parse_items(s: Seq<char>, pos: int) -> Option<(Seq<ItemView>, int)> {
    if 0 <= pos < s.len() && s[pos] == '[' {
        if pos + 1 < s.len() && s[pos + 1] == ']' {
            Option::Some((Seq::empty(), pos + 2))
        } else {
            match parse_item(s, pos + 1) {
                Option::None => Option::None,
                Option::Some((it, p2)) => {
                    if pos + 1 < p2 && p2 <= s.len() {
                        parse_items_rest(s, p2, seq![it])
                    } else {
                        Option::None
                    }
                },
            }
        }
    } else {
        Option::None
    }
}

/// Reading the whole document: the two keyed lists, the closing brace, and
/// nothing after it.
pub open spec fn parse_doc(s: Seq<char>) -> Option<(Seq<ItemView>, Seq<ItemView>)> {
    if at_lit(s, 0, lit_key_todos()) {
        match parse_items(s, lit_key_todos().len() as int) {
            Option::None => Option::None,
            Option::Some((p, p1)) => {
                if at_lit(s, p1, lit_key_completed()) {
                    match parse_items(s, p1 + lit_key_completed().len()) {
                        Option::None => Option::None,
                        Option::Some((c, p2)) => {
                            if p2 + 1 == s.len() && p2 < s.len() && s[p2] == '}' {
                                Option::Some((p, c))
                            } else {
                                Option::None
                            }
                        },
                    }
                } else {
                    Option::None
                }
            },
        }
    } else {
        Option::None
    }
}

proof fn lemma_at_lit_split(s: Seq<char>, pos: int, a: Seq<char>, b: Seq<char>)
    ensures
        at_lit(s, pos, a + b) <==> (at_lit(s, pos, a) && at_lit(s, pos + a.len(), b)),
{
    let al = a.len() as int;
    let bl = b.len() as int;
    let ab = a + b;
    if at_lit(s, pos, ab) {
        assert(s.subrange(pos, pos + al + bl) == ab);
        assert(s.subrange(pos, pos + al) =~= a) by {
            assert forall|i: int| 0 <= i < al implies s.subrange(pos, pos + al)[i] == a[i] by {
                assert(s.subrange(pos, pos + al + bl)[i] == ab[i]);
                assert(s[pos + i] == a[i]);
            }
        }
        assert(s.subrange(pos + al, pos + al + bl) =~= b) by {
            assert forall|i: int|
                0 <= i < bl implies s.subrange(pos + al, pos + al + bl)[i] == b[i] by {
                assert(s.subrange(pos, pos + al + bl)[al + i] == ab[al + i]);
                assert(s[pos + al + i] == b[i]);
            }
        }
    }
    if at_lit(s, pos, a) && at_lit(s, pos + al, b) {
        assert(s.subrange(pos, pos + al + bl) =~= ab) by {
            assert forall|i: int|
                0 <= i < al + bl implies s.subrange(pos, pos + al + bl)[i] == ab[i] by {
                if i < al {
                    assert(s.subrange(pos, pos + al)[i] == a[i]);
                } else {
                    assert(s.subrange(pos + al, pos + al + bl)[i - al] == b[i - al]);
                }
            }
        }
    }
}

proof fn lemma_at_lit_index(s: Seq<char>, pos: int, lit: Seq<char>, i: int)
    requires
        at_lit(s, pos, lit),
        0 <= i < lit.len(),
    ensures
        s[pos + i] == lit[i],
{
    assert(s.subrange(pos, pos + lit.len() as int)[i] == lit[i]);
}

proof fn lemma_ser_u32_digits(n: u32)
    ensures
        ser_u32(n).len() >= 1,
        forall|k: int| 0 <= k < ser_u32(n).len() ==> is_digit(#[trigger] ser_u32(n)[k]),
        n > 0 ==> ser_u32(n)[0] != '0',
    decreases n,
{
    if n < 10 {
    } else {
        lemma_ser_u32_digits(n / 10);
        assert(forall|k: int|
            0 <= k < ser_u32(n).len() - 1 ==> #[trigger] ser_u32(n)[k] == ser_u32(n / 10)[k]);
        assert(ser_u32(n).last() == digit_char((n % 10) as int));
        assert(is_digit(digit_char((n % 10) as int)));
        assert(ser_u32(n)[0] == ser_u32(n / 10)[0]);
    }
}

proof fn lemma_digits_val_ser(n: u32)
    ensures
        digits_val(ser_u32(n)) == n,
    decreases n,
{
    if n < 10 {
        let d = ser_u32(n);
        assert(d.drop_last() =~= Seq::<char>::empty());
        assert(digits_val(Seq::<char>::empty()) == 0);
        assert(d.last() == digit_char(n as int));
    } else {
        lemma_digits_val_ser(n / 10);
        let d = ser_u32(n);
        assert(d.drop_last() =~= ser_u32(n / 10));
        assert(d.last() == digit_char((n % 10) as int));
        assert(digit_val(digit_char((n % 10) as int)) == n % 10);
        assert(digits_val(d) == digits_val(ser_u32(n / 10)) * 10 + n % 10);
    }
}

proof fn lemma_digit_run_end_at(s: Seq<char>, pos: int, len: int)
    requires
        0 <= pos,
        0 <= len,
        pos + len <= s.len(),
        forall|k: int| 0 <= k < len ==> is_digit(#[trigger] s[pos + k]),
        pos + len == s.len() || !is_digit(s[pos + len]),
    ensures
        digit_run_end(s, pos) == pos + len,
    decreases len,
{
    if len == 0 {
    } else {
        assert(is_digit(s[pos + 0]));
        assert forall|k: int| 0 <= k < len - 1 implies is_digit(#[trigger] s[(pos + 1) + k]) by {
            assert(is_digit(s[pos + (k + 1)]));
        }
        lemma_digit_run_end_at(s, pos + 1, len - 1);
    }
}

proof fn lemma_parse_u32_at(s: Seq<char>, pos: int, n: u32)
    requires
        at_lit(s, pos, ser_u32(n)),
        pos + ser_u32(n).len() < s.len(),
        !is_digit(s[pos + ser_u32(n).len()]),
    ensures
        parse_u32(s, pos) == Option::Some((n, pos + ser_u32(n).len() as int)),
{
    let d = ser_u32(n);
    let len = d.len() as int;
    lemma_ser_u32_digits(n);
    assert forall|k: int| 0 <= k < len implies is_digit(#[trigger] s[pos + k]) by {
        assert(s.subrange(pos, pos + len)[k] == d[k]);
        assert(s[pos + k] == d[k]);
        assert(is_digit(d[k]));
    }
    lemma_at_lit_index(s, pos, d, 0);
    assert(s[pos] == d[0]);
    assert(is_digit(s[pos]));
    if n == 0 {
        assert(d[0] == digit_char(0));
        assert(s[pos] == '0');
    } else {
        assert(s[pos] != '0');
        lemma_digit_run_end_at(s, pos, len);
        assert(s.subrange(pos, digit_run_end(s, pos)) == d);
        lemma_digits_val_ser(n);
        assert(digits_val(d) == n <= u32::MAX);
    }
}

proof fn lemma_parse_text_at(s: Seq<char>, pos: int, v: Seq<char>)
    requires
        0 <= pos,
        at_lit(s, pos, ser_text(v)),
        pos + ser_text(v).len() < s.len(),
        s[pos + ser_text(v).len()] == '"',
    ensures
        parse_text(s, pos) == Option::Some((v, pos + ser_text(v).len() as int)),
    decreases v.len(),
{
    if v.len() == 0 {
        assert(ser_text(v).len() == 0);
        assert(s[pos] == '"');
        assert(v =~= Seq::<char>::empty());
    } else {
        let e = escape_char(v[0]);
        let t = ser_text(v.drop_first());
        assert(ser_text(v) == e + t);
        lemma_at_lit_split(s, pos, e, t);
        let el = e.len() as int;
        lemma_at_lit_index(s, pos, e, 0);
        assert(s[pos] == e[0]);
        if v[0] == '"' || v[0] == '\\' || v[0] == '\n' || v[0] == '\t' || v[0] == '\r' {
            assert(e.len() == 2);
            assert(e[0] == '\\');
            lemma_at_lit_index(s, pos, e, 1);
            assert(s[pos + 1] == e[1]);
            assert(unescape_char(e[1]) == Option::Some(v[0]));
            assert(pos + 1 < s.len());
            lemma_parse_text_at(s, pos + 2, v.drop_first());
            assert(seq![v[0]] + v.drop_first() =~= v);
        } else {
            assert(e =~= seq![v[0]]);
            assert(s[pos] == v[0]);
            assert(s[pos] != '"' && s[pos] != '\\');
            lemma_parse_text_at(s, pos + 1, v.drop_first());
            assert(seq![v[0]] + v.drop_first() =~= v);
        }
    }
}

proof fn lemma_parse_item_at(s: Seq<char>, pos: int, it: ItemView)
    requires
        at_lit(s, pos, ser_item(it)),
    ensures
        parse_item(s, pos) == Option::Some((it, pos + ser_item(it).len() as int)),
{
    let t = ser_text(it.value);
    let u = ser_u32(it.id);
    let a1 = lit_item_open() + t + lit_item_mid() + u;
    lemma_at_lit_split(s, pos, a1, seq!['}']);
    let a2 = lit_item_open() + t + lit_item_mid();
    lemma_at_lit_split(s, pos, a2, u);
    let a3 = lit_item_open() + t;
    lemma_at_lit_split(s, pos, a3, lit_item_mid());
    lemma_at_lit_split(s, pos, lit_item_open(), t);
    let p_text = pos + 10;
    let p_mid = p_text + t.len() as int;
    let p_id = p_mid + 7;
    let p_brace = p_id + u.len() as int;
    assert(at_lit(s, pos, lit_item_open()));
    assert(at_lit(s, p_text, t));
    assert(at_lit(s, p_mid, lit_item_mid()));
    assert(at_lit(s, p_id, u));
    assert(at_lit(s, p_brace, seq!['}']));
    lemma_at_lit_index(s, p_mid, lit_item_mid(), 0);
    assert(s[p_mid] == '"');
    lemma_parse_text_at(s, p_text, it.value);
    lemma_at_lit_index(s, p_brace, seq!['}'], 0);
    assert(s[p_brace] == '}');
    assert(!is_digit(s[p_brace]));
    lemma_parse_u32_at(s, p_id, it.id);
    assert(it == ItemView { value: it.value, id: it.id });
}

proof fn lemma_parse_items_rest_at(s: Seq<char>, pos: int, acc: Seq<ItemView>, rem: Seq<ItemView>)
    requires
        0 <= pos,
        at_lit(s, pos, ser_items_rest(rem) + seq![']']),
    ensures
        parse_items_rest(s, pos, acc) == Option::Some(
            (acc + rem, pos + ser_items_rest(rem).len() + 1),
        ),
    decreases rem.len(),
{
    if rem.len() == 0 {
        assert(ser_items_rest(rem).len() == 0);
        assert(ser_items_rest(rem) + seq![']'] =~= seq![']']);
        lemma_at_lit_index(s, pos, seq![']'], 0);
        assert(s[pos] == ']');
        assert(acc + rem =~= acc);
    } else {
        let i0 = ser_item(rem[0]);
        let r2 = ser_items_rest(rem.drop_first());
        assert(ser_items_rest(rem) == seq![','] + i0 + r2);
        lemma_at_lit_split(s, pos, seq![','] + i0 + r2, seq![']']);
        lemma_at_lit_split(s, pos, seq![','] + i0, r2);
        lemma_at_lit_split(s, pos, seq![','], i0);
        lemma_at_lit_index(s, pos, seq![','], 0);
        assert(s[pos] == ',');
        let p2 = pos + 1 + i0.len() as int;
        lemma_parse_item_at(s, pos + 1, rem[0]);
        assert(ser_item(rem[0]).len() >= 18);
        lemma_at_lit_split(s, p2, r2, seq![']']);
        lemma_parse_items_rest_at(s, p2, acc.push(rem[0]), rem.drop_first());
        assert(acc.push(rem[0]) + rem.drop_first() =~= acc + rem);
    }
}

proof fn lemma_parse_items_at(s: Seq<char>, pos: int, items: Seq<ItemView>)
    requires
        0 <= pos,
        at_lit(s, pos, seq!['['] + ser_items(items) + seq![']']),
    ensures
        parse_items(s, pos) == Option::Some((items, pos + 2 + ser_items(items).len())),
{
    if items.len() == 0 {
        assert(ser_items(items).len() == 0);
        assert(seq!['['] + ser_items(items) + seq![']'] =~= seq!['[', ']']);
        lemma_at_lit_index(s, pos, seq!['[', ']'], 0);
        lemma_at_lit_index(s, pos, seq!['[', ']'], 1);
        assert(s[pos] == '[' && s[pos + 1] == ']');
        assert(items =~= Seq::<ItemView>::empty());
    } else {
        let i0 = ser_item(items[0]);
        let r = ser_items_rest(items.drop_first());
        assert(ser_items(items) == i0 + r);
        lemma_at_lit_split(s, pos, seq!['['] + ser_items(items), seq![']']);
        lemma_at_lit_split(s, pos, seq!['['], ser_items(items));
        lemma_at_lit_split(s, pos + 1, i0, r);
        lemma_at_lit_index(s, pos, seq!['['], 0);
        assert(s[pos] == '[');
        lemma_at_lit_index(s, pos + 1, i0, 0);
        assert(i0[0] == '{');
        assert(s[pos + 1] == '{');
        lemma_parse_item_at(s, pos + 1, items[0]);
        let p2 = pos + 1 + i0.len() as int;
        lemma_at_lit_split(s, p2, r, seq![']']);
        lemma_parse_items_rest_at(s, p2, seq![items[0]], items.drop_first());
        assert(seq![items[0]] + items.drop_first() =~= items);
    }
}

#[verifier::rlimit(100)]
proof fn lemma_doc_segments(pending: Seq<ItemView>, completed: Seq<ItemView>)
    ensures
        at_lit(ser_doc(pending, completed), 0, lit_key_todos()),
        at_lit(
            ser_doc(pending, completed),
            9,
            seq!['['] + ser_items(pending) + seq![']'],
        ),
        at_lit(
            ser_doc(pending, completed),
            11 + ser_items(pending).len() as int,
            lit_key_completed(),
        ),
        at_lit(
            ser_doc(pending, completed),
            24 + ser_items(pending).len() as int,
            seq!['['] + ser_items(completed) + seq![']'],
        ),
        at_lit(
            ser_doc(pending, completed),
            26 + ser_items(pending).len() as int + ser_items(completed).len() as int,
            seq!['}'],
        ),
        ser_doc(pending, completed).len() == 27 + ser_items(pending).len() + ser_items(
            completed,
        ).len(),
{
    let s = ser_doc(pending, completed);
    let sp = ser_items(pending);
    let sc = ser_items(completed);
    assert(at_lit(s, 0, s)) by {
        assert(s.subrange(0, s.len() as int) =~= s);
    }
    assert(s == lit_doc_open() + sp + lit_doc_mid() + sc + lit_doc_close());
    lemma_at_lit_split(s, 0, lit_doc_open() + sp + lit_doc_mid() + sc, lit_doc_close());
    lemma_at_lit_split(s, 0, lit_doc_open() + sp + lit_doc_mid(), sc);
    lemma_at_lit_split(s, 0, lit_doc_open() + sp, lit_doc_mid());
    lemma_at_lit_split(s, 0, lit_doc_open(), sp);
    let q1 = 10 + sp.len() as int;
    assert(at_lit(s, 0, lit_doc_open()));
    assert(at_lit(s, 10, sp));
    assert(at_lit(s, q1, lit_doc_mid()));
    assert(at_lit(s, q1 + 15, sc));
    assert(at_lit(s, q1 + 15 + sc.len(), lit_doc_close()));
    // The opening: the key, then the pending list's bracket.
    assert(lit_doc_open() =~= lit_key_todos() + seq!['[']);
    lemma_at_lit_split(s, 0, lit_key_todos(), seq!['[']);
    assert(at_lit(s, 0, lit_key_todos()));
    assert(at_lit(s, 9, seq!['[']));
    // The middle: closing bracket, the key, the completed list's bracket.
    assert(lit_doc_mid() =~= (seq![']'] + lit_key_completed()) + seq!['[']);
    lemma_at_lit_split(s, q1, seq![']'] + lit_key_completed(), seq!['[']);
    lemma_at_lit_split(s, q1, seq![']'], lit_key_completed());
    assert(at_lit(s, q1, seq![']']));
    assert(at_lit(s, q1 + 1, lit_key_completed()));
    assert(at_lit(s, q1 + 14, seq!['[']));
    // The close: the completed list's bracket, then the brace.
    let q2 = q1 + 15 + sc.len() as int;
    assert(lit_doc_close() =~= seq![']'] + seq!['}']);
    lemma_at_lit_split(s, q2, seq![']'], seq!['}']);
    assert(at_lit(s, q2, seq![']']));
    assert(at_lit(s, q2 + 1, seq!['}']));
    // The pending list with its brackets.
    lemma_at_lit_split(s, 9, seq!['['], sp);
    lemma_at_lit_split(s, 9, seq!['['] + sp, seq![']']);
    assert(at_lit(s, 9, seq!['['] + sp + seq![']']));
    // The completed list with its brackets.
    lemma_at_lit_split(s, q1 + 14, seq!['['], sc);
    lemma_at_lit_split(s, q1 + 14, seq!['['] + sc, seq![']']);
    assert(at_lit(s, q1 + 14, seq!['['] + sc + seq![']']));
    assert(s.len() == q2 + 2);
}

/// The round trip of persistence: reading back the canonical rendering of any
/// list pair yields exactly that pair. Together with the contracts of
/// `serialize_document` and `parse_document`, a save followed by a load
/// reproduces the same pending and completed lists.
proof fn lemma_parse_doc_assemble(s: Seq<char>, pending: Seq<ItemView>, completed: Seq<ItemView>)
    requires
        at_lit(s, 0, lit_key_todos()),
        at_lit(s, 9, seq!['['] + ser_items(pending) + seq![']']),
        at_lit(s, 11 + ser_items(pending).len() as int, lit_key_completed()),
        at_lit(
            s,
            24 + ser_items(pending).len() as int,
            seq!['['] + ser_items(completed) + seq![']'],
        ),
        at_lit(
            s,
            26 + ser_items(pending).len() as int + ser_items(completed).len() as int,
            seq!['}'],
        ),
        s.len() == 27 + ser_items(pending).len() + ser_items(completed).len(),
    ensures
        parse_doc(s) == Option::Some((pending, completed)),
{
    let sp = ser_items(pending);
    let sc = ser_items(completed);
    lemma_parse_items_at(s, 9, pending);
    assert(parse_items(s, 9) == Option::Some((pending, 11 + sp.len() as int)));
    lemma_parse_items_at(s, 24 + sp.len() as int, completed);
    assert(parse_items(s, 24 + sp.len() as int) == Option::Some(
        (completed, 26 + sp.len() as int + sc.len() as int),
    ));
    lemma_at_lit_index(s, 26 + sp.len() as int + sc.len() as int, seq!['}'], 0);
    assert(s[26 + sp.len() as int + sc.len() as int] == '}');
}

/// The round trip of persistence: reading back the canonical rendering of any
/// list pair yields exactly that pair. Together with the contracts of
/// `serialize_document` and `parse_document`, a save followed by a load
/// reproduces the same pending and completed lists.
pub proof fn lemma_document_round_trip(pending: Seq<ItemView>, completed: Seq<ItemView>)
    ensures
        parse_doc(ser_doc(pending, completed)) == Option::Some((pending, completed)),
{
    lemma_doc_segments(pending, completed);
    lemma_parse_doc_assemble(ser_doc(pending, completed), pending, completed);
}

fn is_digit_char(c: char) -> (r: bool)
    ensures
        r == is_digit(c),
{
    c == '0' || c == '1' || c == '2' || c == '3' || c == '4' || c == '5' || c == '6' || c == '7'
        || c == '8' || c == '9'
}

fn digit_value(c: char) -> (r: u32)
    requires
        is_digit(c),
    ensures
        r == digit_val(c),
        r < 10,
{
    if c == '0' {
        0
    } else if c == '1' {
        1
    } else if c == '2' {
        2
    } else if c == '3' {
        3
    } else if c == '4' {
        4
    } else if c == '5' {
        5
    } else if c == '6' {
        6
    } else if c == '7' {
        7
    } else if c == '8' {
        8
    } else {
        9
    }
}

fn expect_lit(s: &str, pos: usize, lit: &str) -> (r: bool)
    ensures
        r == at_lit(s@, pos as int, lit@),
{
    let n = s.unicode_len();
    let m = lit.unicode_len();
    if m > n {
        return false;
    }
    if pos > n - m {
        return false;
    }
    let mut i: usize = 0;
    while i < m
        invariant
            0 <= i <= m,
            pos + m <= n,
            n == s@.len(),
            m == lit@.len(),
            forall|k: int| 0 <= k < i ==> s@[pos + k] == lit@[k],
        decreases m - i,
    {
        if s.get_char(pos + i) != lit.get_char(i) {
            proof {
                if at_lit(s@, pos as int, lit@) {
                    assert(s@.subrange(pos as int, pos + m as int)[i as int] == lit@[i as int]);
                }
            }
            return false;
        }
        i = i + 1;
    }
    proof {
        assert(s@.subrange(pos as int, pos + m as int) =~= lit@);
    }
    true
}

proof fn lemma_digits_val_bounds(d: Seq<char>)
    requires
        forall|k: int| 0 <= k < d.len() ==> is_digit(d[k]),
    ensures
        0 <= digits_val(d) < pow10(d.len()),
    decreases d.len(),
{
    if d.len() == 0 {
    } else {
        let dd = d.drop_last();
        assert(forall|k: int| 0 <= k < dd.len() ==> is_digit(dd[k]));
        lemma_digits_val_bounds(dd);
        assert(0 <= digit_val(d.last()) <= 9);
        assert(pow10(d.len()) == 10 * pow10(dd.len()));
    }
}

proof fn lemma_digits_val_lower(d: Seq<char>)
    requires
        forall|k: int| 0 <= k < d.len() ==> is_digit(d[k]),
        d.len() >= 1,
        digit_val(d[0]) >= 1,
    ensures
        digits_val(d) >= pow10((d.len() - 1) as nat),
    decreases d.len(),
{
    if d.len() == 1 {
        assert(d.drop_last() =~= Seq::<char>::empty());
        assert(digits_val(Seq::<char>::empty()) == 0);
        assert(d.last() == d[0]);
        assert(digits_val(d) == digit_val(d[0]));
    } else {
        let dd = d.drop_last();
        assert(dd[0] == d[0]);
        assert(forall|k: int| 0 <= k < dd.len() ==> is_digit(dd[k]));
        lemma_digits_val_lower(dd);
        assert(0 <= digit_val(d.last()));
        assert(pow10((d.len() - 1) as nat) == 10 * pow10((dd.len() - 1) as nat));
    }
}

proof fn lemma_pow10_mono(a: nat, b: nat)
    requires
        a <= b,
    ensures
        1 <= pow10(a) <= pow10(b),
    decreases b,
{
    if b == 0 {
    } else if a == b {
        lemma_pow10_mono((a - 1) as nat, (b - 1) as nat);
    } else {
        lemma_pow10_mono(a, (b - 1) as nat);
    }
}

fn parse_u32_exec(s: &str, pos: usize) -> (r: Option<(u32, usize)>)
    ensures
        match r {
            Option::Some((v, e)) => parse_u32(s@, pos as int) == Option::Some((v, e as int)) && pos
                < e <= s@.len(),
            Option::None => parse_u32(s@, pos as int) is None,
        },
{
    let n = s.unicode_len();
    if pos >= n {
        return None;
    }
    let c0 = s.get_char(pos);
    if !is_digit_char(c0) {
        return None;
    }
    if c0 == '0' {
        return Some((0, pos + 1));
    }
    let mut e: usize = pos;
    while e < n && is_digit_char(s.get_char(e))
        invariant
            pos <= e <= n,
            n == s@.len(),
            digit_run_end(s@, pos as int) == digit_run_end(s@, e as int),
            forall|k: int| pos <= k < e ==> is_digit(s@[k]),
        decreases n - e,
    {
        e = e + 1;
    }
    assert(digit_run_end(s@, pos as int) == e);
    let ghost d = s@.subrange(pos as int, e as int);
    proof {
        assert(forall|k: int| 0 <= k < d.len() ==> is_digit(d[k]));
        assert(d[0] == s@[pos as int]);
        reveal_with_fuel(pow10, 12);
        assert(pow10(10) == 10000000000);
        assert(pow10(9) == 1000000000);
    }
    if e - pos > 10 {
        proof {
            lemma_digits_val_lower(d);
            lemma_pow10_mono(10, (d.len() - 1) as nat);
            assert(digits_val(d) > u32::MAX);
        }
        return None;
    }
    let mut acc: u64 = 0;
    let mut i: usize = pos;
    while i < e
        invariant
            pos <= i <= e <= n,
            n == s@.len(),
            e - pos <= 10,
            forall|k: int| pos <= k < e ==> is_digit(s@[k]),
            acc == digits_val(s@.subrange(pos as int, i as int)),
            0 <= acc < pow10((i - pos) as nat),
        decreases e - i,
    {
        let dv = digit_value(s.get_char(i));
        proof {
            let prefix = s@.subrange(pos as int, i as int);
            let grown = s@.subrange(pos as int, i + 1 as int);
            assert(grown =~= prefix.push(s@[i as int]));
            assert(grown.drop_last() =~= prefix);
            assert(digits_val(grown) == digits_val(prefix) * 10 + digit_val(s@[i as int]));
            lemma_pow10_mono(((i + 1) - pos) as nat, 10);
            reveal_with_fuel(pow10, 12);
            assert(pow10(((i + 1) - pos) as nat) == 10 * pow10((i - pos) as nat));
        }
        acc = acc * 10 + dv as u64;
        i = i + 1;
    }
    if acc > u32::MAX as u64 {
        return None;
    }
    Some((acc as u32, e))
}

fn parse_text_exec(s: &str, pos: usize) -> (r: Option<(String, usize)>)
    requires
        pos <= s@.len(),
    ensures
        match r {
            Option::Some(te) => parse_text(s@, pos as int) == Option::Some((te.0@, te.1 as int))
                && pos <= te.1 < s@.len(),
            Option::None => parse_text(s@, pos as int) is None,
        },
    decreases s@.len() - pos,
{
    let n = s.unicode_len();
    if pos >= n {
        return None;
    }
    let c = s.get_char(pos);
    if c == '"' {
        let t = String::new();
        return Some((t, pos));
    }
    if c == '\\' {
        if pos + 1 >= n {
            return None;
        }
        let c2 = s.get_char(pos + 1);
        let unescaped: &str;
        if c2 == '"' {
            unescaped = "\"";
            proof {
                reveal_strlit("\"");
                assert("\""@ =~= seq!['"']);
            }
        } else if c2 == '\\' {
            unescaped = "\\";
            proof {
                reveal_strlit("\\");
                assert("\\"@ =~= seq!['\\']);
            }
        } else if c2 == 'n' {
            unescaped = "\n";
            proof {
                reveal_strlit("\n");
                assert("\n"@ =~= seq!['\n']);
            }
        } else if c2 == 't' {
            unescaped = "\t";
            proof {
                reveal_strlit("\t");
                assert("\t"@ =~= seq!['\t']);
            }
        } else if c2 == 'r' {
            unescaped = "\r";
            proof {
                reveal_strlit("\r");
                assert("\r"@ =~= seq!['\r']);
            }
        } else {
            return None;
        }
        match parse_text_exec(s, pos + 2) {
            None => {
                return None;
            },
            Some((t, e)) => {
                let combined = String::from_str(unescaped).concat(t.as_str());
                proof {
                    assert(combined@ =~= seq![unescape_char(c2)->Some_0] + t@);
                }
                return Some((combined, e));
            },
        }
    }
    let one = s.substring_char(pos, pos + 1);
    match parse_text_exec(s, pos + 1) {
        None => None,
        Some((t, e)) => {
            let combined = String::from_str(one).concat(t.as_str());
            proof {
                assert(combined@ =~= seq![s@[pos as int]] + t@);
            }
            Some((combined, e))
        },
    }
}

fn parse_item_exec(s: &str, pos: usize) -> (r: Option<(Item, usize)>)
    requires
        pos <= s@.len(),
    ensures
        match r {
            Option::Some(ie) => parse_item(s@, pos as int) == Option::Some((ie.0@, ie.1 as int))
                && pos < ie.1 <= s@.len(),
            Option::None => parse_item(s@, pos as int) is None,
        },
{
    let n = s.unicode_len();
    proof {
        reveal_strlit("{\"value\":\"");
        assert("{\"value\":\""@ =~= lit_item_open());
        reveal_strlit("\",\"id\":");
        assert("\",\"id\":"@ =~= lit_item_mid());
    }
    if !expect_lit(s, pos, "{\"value\":\"") {
        return None;
    }
    let p0 = pos + 10;
    match parse_text_exec(s, p0) {
        None => None,
        Some((v, p1)) => {
            if !expect_lit(s, p1, "\",\"id\":") {
                return None;
            }
            let p2 = p1 + 7;
            match parse_u32_exec(s, p2) {
                None => None,
                Some((idv, p3)) => {
                    if p3 < n && s.get_char(p3) == '}' {
                        Some((Item { value: v, id: idv }, p3 + 1))
                    } else {
                        None
                    }
                },
            }
        },
    }
}

fn parse_items_rest_exec(s: &str, pos: usize, acc: Vec<Item>) -> (r: Option<(Vec<Item>, usize)>)
    requires
        pos <= s@.len(),
    ensures
        match r {
            Option::Some(ve) => parse_items_rest(s@, pos as int, items_view(acc@))
                == Option::Some((items_view(ve.0@), ve.1 as int)) && ve.1 <= s@.len(),
            Option::None => parse_items_rest(s@, pos as int, items_view(acc@)) is None,
        },
    decreases s@.len() - pos,
{
    let n = s.unicode_len();
    if pos < n && s.get_char(pos) == ']' {
        return Some((acc, pos + 1));
    }
    if pos < n && s.get_char(pos) == ',' {
        match parse_item_exec(s, pos + 1) {
            None => None,
            Some((it, p2)) => {
                if pos + 1 < p2 && p2 <= n {
                    let ghost acc_seq = acc@;
                    let ghost acc_v = items_view(acc@);
                    let ghost itv = it@;
                    let mut acc2 = acc;
                    acc2.push(it);
                    proof {
                        crate::state::lemma_items_view_push(acc_seq, acc2@.last());
                        assert(acc2@.drop_last() =~= acc_seq);
                        assert(items_view(acc2@) == acc_v.push(itv));
                    }
                    parse_items_rest_exec(s, p2, acc2)
                } else {
                    None
                }
            },
        }
    } else {
        None
    }
}

fn parse_items_exec(s: &str, pos: usize) -> (r: Option<(Vec<Item>, usize)>)
    requires
        pos <= s@.len(),
    ensures
        match r {
            Option::Some(ve) => parse_items(s@, pos as int) == Option::Some((
                items_view(ve.0@),
                ve.1 as int,
            )) && ve.1 <= s@.len(),
            Option::None => parse_items(s@, pos as int) is None,
        },
{
    let n = s.unicode_len();
    if pos < n && s.get_char(pos) == '[' {
        if pos + 1 < n && s.get_char(pos + 1) == ']' {
            let out: Vec<Item> = Vec::new();
            proof {
                assert(items_view(out@) =~= Seq::<ItemView>::empty());
            }
            Some((out, pos + 2))
        } else {
            match parse_item_exec(s, pos + 1) {
                None => None,
                Some((it, p2)) => {
                    if pos + 1 < p2 && p2 <= n {
                        let ghost itv = it@;
                        let mut acc: Vec<Item> = Vec::new();
                        acc.push(it);
                        proof {
                            assert(items_view(acc@) =~= seq![itv]);
                        }
                        parse_items_rest_exec(s, p2, acc)
                    } else {
                        None
                    }
                },
            }
        }
    } else {
        None
    }
}

/// Read a document back: `Ok` with the two lists exactly when the text is the
/// canonical rendering read by `parse_doc`, and an error on any other text.
pub fn parse_document(s: &str) -> (r: Result<(Vec<Item>, Vec<Item>), DeserializeError>)
    ensures
        match r {
            Result::Ok(pc) => parse_doc(s@) == Option::Some(
                (items_view(pc.0@), items_view(pc.1@)),
            ),
            Result::Err(_) => parse_doc(s@) is None,
        },
{
    let n = s.unicode_len();
    proof {
        reveal_strlit("{\"todos\":");
        assert("{\"todos\":"@ =~= lit_key_todos());
        reveal_strlit(",\"completed\":");
        assert(",\"completed\":"@ =~= lit_key_completed());
    }
    if !expect_lit(s, 0, "{\"todos\":") {
        return Err(DeserializeError);
    }
    match parse_items_exec(s, 9) {
        None => Err(DeserializeError),
        Some((p, p1)) => {
            if !expect_lit(s, p1, ",\"completed\":") {
                return Err(DeserializeError);
            }
            match parse_items_exec(s, p1 + 13) {
                None => Err(DeserializeError),
                Some((c, p2)) => {
                    if p2 < n && s.get_char(p2) == '}' && p2 + 1 == n {
                        Ok((p, c))
                    } else {
                        Err(DeserializeError)
                    }
                },
            }
        },
    }
}

} // verus!
