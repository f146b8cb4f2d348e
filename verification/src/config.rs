//! Settings of the report sender, and the clean-up of the mail app password.
use vstd::prelude::*;

use crate::text::push_char;

verus! {

/// Where the report goes and how it is sent.
#[derive(Debug, Clone)]
pub struct Config {
    pub gmail_address: String,
    pub gmail_app_password: String,
    pub recipient_1: String,
    pub recipient_2: String,
    pub telegram_bot_token: String,
    pub telegram_chat_id: String,
    pub sender_name: String,
}

/// The characters with the Unicode `White_Space` property, which is what
/// `char::is_whitespace` and `str::split_whitespace` go by.
pub open spec fn is_white_space(c: char) -> bool {
    let v = c as u32;
    ||| 0x09 <= v <= 0x0D
    ||| v == 0x20
    ||| v == 0x85
    ||| v == 0xA0
    ||| v == 0x1680
    ||| 0x2000 <= v <= 0x200A
    ||| v == 0x2028
    ||| v == 0x2029
    ||| v == 0x202F
    ||| v == 0x205F
    ||| v == 0x3000
}

/// `text` with every white-space character taken out.
pub open spec fn without_white_space(text: Seq<char>) -> Seq<char>
    decreases text.len(),
{
    if text.len() == 0 {
        Seq::empty()
    } else if is_white_space(text.last()) {
        without_white_space(text.drop_last())
    } else {
        without_white_space(text.drop_last()).push(text.last())
    }
}

fn white_space(c: char) -> (r: bool)
    ensures
        r == is_white_space(c),
{
    let v = c as u32;
    (0x09 <= v && v <= 0x0D) || v == 0x20 || v == 0x85 || v == 0xA0 || v == 0x1680 || (0x2000
        <= v && v <= 0x200A) || v == 0x2028 || v == 0x2029 || v == 0x202F || v == 0x205F || v
        == 0x3000
}

/// The app password as Gmail expects it. Google shows app passwords in groups
/// ("abcd efgh ijkl mnop") but the secret is the characters alone, so every
/// white-space character is taken out of what was configured.
pub fn app_password_from(raw: &str) -> (r: String)
    ensures
        r@ == without_white_space(raw@),
{
    let n = raw.unicode_len();
    let mut out = String::new();
    let mut i: usize = 0;
    while i < n
        invariant
            n == raw@.len(),
            i <= n,
            out@ == without_white_space(raw@.take(i as int)),
        decreases n - i,
    {
        let c = raw.get_char(i);
        if !white_space(c) {
            push_char(&mut out, c);
        }
        proof {
            assert(raw@.take(i as int + 1).drop_last() =~= raw@.take(i as int));
        }
        i = i + 1;
    }
    assert(raw@.take(n as int) =~= raw@);
    out
}

/// No white space is left in a cleaned password.
pub proof fn lemma_without_white_space_has_none(text: Seq<char>)
    ensures
        forall|i: int|
            0 <= i < without_white_space(text).len() ==> !is_white_space(
                #[trigger] without_white_space(text)[i],
            ),
    decreases text.len(),
{
    if text.len() > 0 {
        let rest = without_white_space(text.drop_last());
        lemma_without_white_space_has_none(text.drop_last());
        assert forall|i: int|
            0 <= i < without_white_space(text).len() implies !is_white_space(
            #[trigger] without_white_space(text)[i],
        ) by {
            if i < rest.len() {
                assert(without_white_space(text)[i] == rest[i]);
            }
        }
    }
}

} // verus!
