//! Text of the alert that the scheduled client sends when an inference
//! crosses the alert threshold, and the Telegram endpoint it goes to.

use vstd::prelude::*;

verus! {

/// The text of the alert for an inference message.
pub open spec fn alert_text_spec(message: Seq<char>) -> Seq<char> {
    "[TGD-AAP Alert] "@ + message
}

/// The Telegram `sendMessage` endpoint of a bot.
pub open spec fn telegram_url_spec(bot_token: Seq<char>) -> Seq<char> {
    "https://api.telegram.org/bot"@ + bot_token + "/sendMessage"@
}

/// The text of the alert sent for an inference message.
pub fn alert_text(message: &str) -> (r: String)
    ensures
        r@ == alert_text_spec(message@),
{
    let mut r = "[TGD-AAP Alert] ".to_owned();
    r.append(message);
    r
}

/// The Telegram endpoint that delivers a bot's messages.
pub fn telegram_send_url(bot_token: &str) -> (r: String)
    ensures
        r@ == telegram_url_spec(bot_token@),
{
    let mut r = "https://api.telegram.org/bot".to_owned();
    r.append(bot_token);
    r.append("/sendMessage");
    r
}

/// The alert is the 16 characters `[TGD-AAP Alert] ` followed by the whole
/// message, character for character.
pub proof fn lemma_alert_text_parts(message: Seq<char>)
    ensures
        alert_text_spec(message).len() == 16 + message.len(),
        alert_text_spec(message).take(16) == seq!['[', 'T', 'G', 'D', '-', 'A', 'A', 'P', ' ', 'A', 'l', 'e', 'r', 't', ']', ' '],
        alert_text_spec(message).skip(16) == message,
{
    reveal_strlit("[TGD-AAP Alert] ");
    let r = alert_text_spec(message);
    assert(r.take(16) =~= seq!['[', 'T', 'G', 'D', '-', 'A', 'A', 'P', ' ', 'A', 'l', 'e', 'r', 't', ']', ' ']);
    assert(r.skip(16) =~= message);
}

/// The Telegram endpoint is the 28 characters `https://api.telegram.org/bot`,
/// the whole bot token, then the 12 characters `/sendMessage`.
pub proof fn lemma_telegram_url_parts(bot_token: Seq<char>)
    ensures
        telegram_url_spec(bot_token).len() == 28 + bot_token.len() + 12,
        telegram_url_spec(bot_token).take(28) == "https://api.telegram.org/bot"@,
        telegram_url_spec(bot_token).subrange(28, 28 + bot_token.len() as int) == bot_token,
        telegram_url_spec(bot_token).skip(28 + bot_token.len() as int) == "/sendMessage"@,
{
    reveal_strlit("https://api.telegram.org/bot");
    reveal_strlit("/sendMessage");
    let r = telegram_url_spec(bot_token);
    assert(r.take(28) =~= "https://api.telegram.org/bot"@);
    assert(r.subrange(28, 28 + bot_token.len() as int) =~= bot_token);
    assert(r.skip(28 + bot_token.len() as int) =~= "/sendMessage"@);
}

} // verus!
