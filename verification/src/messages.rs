//! Texts handed to the mail and chat services.
use vstd::prelude::*;

use vstd::string::StringExecFns;

verus! {

/// The subject of the report mail.
pub fn mail_subject() -> (r: &'static str)
    ensures
        r@ == "Feuille de présence"@,
{
    "Feuille de présence"
}

/// The sender as a mailbox: `name <address>`.
pub fn mailbox_text(name: &str, address: &str) -> (r: String)
    ensures
        r@ == name@ + " <"@ + address@ + ">"@,
{
    let mut out = String::from_str(name);
    out.append(" <");
    out.append(address);
    out.append(">");
    out
}

/// The Telegram Bot API endpoint that sends a message with bot `bot_token`.
pub fn telegram_send_url(bot_token: &str) -> (r: String)
    ensures
        r@ == "https://api.telegram.org/bot"@ + bot_token@ + "/sendMessage"@,
{
    let mut out = String::from_str("https://api.telegram.org/bot");
    out.append(bot_token);
    out.append("/sendMessage");
    out
}

/// The chat message that reports a sent mail: its recipients, then its body.
pub fn report_sent_text(recipient_1: &str, recipient_2: &str, body: &str) -> (r: String)
    ensures
        r@ == "Feuille de présence envoyée.\nDestinataires: "@ + recipient_1@ + ", "@
            + recipient_2@ + "\n\n"@ + body@,
{
    let mut out = String::from_str("Feuille de présence envoyée.\nDestinataires: ");
    out.append(recipient_1);
    out.append(", ");
    out.append(recipient_2);
    out.append("\n\n");
    out.append(body);
    out
}

} // verus!
