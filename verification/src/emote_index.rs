//! Addresses of the emote catalogs.
//!
//! The catalogs themselves are fetched and read by the caller. What is fixed here is
//! where each provider lists its emotes and under which addresses it serves the
//! pictures of one.

use vstd::prelude::*;
use vstd::string::*;
use vstd::utf8::*;
use crate::overrustle::{last_byte, SLASH};
use crate::text::lemma_str_bytes_valid;

verus! {

broadcast use {
    vstd::utf8::group_utf8_lib,
    vstd::seq::group_seq_axioms,
    vstd::slice::group_slice_axioms,
};

/// Where TwitchMetrics lists emotes.
pub const TWITCHMETRICS_URL: &'static str = "https://www.twitchmetrics.net";

/// Where BetterTTV lists the emotes of all channels.
pub const BTTV_GLOBAL_URL: &'static str = "https://api.betterttv.net/2/emotes";

/// Where BetterTTV lists the emotes of one channel.
pub const BTTV_CHANNEL_URL: &'static str = "https://api.betterttv.net/2/channels";

/// Where BetterTTV serves the pictures of an emote.
pub const BTTV_IMAGE_URL: &'static str = "http://cdn.betterttv.net/emote/";

/// Where FrankerFaceZ lists the emotes of all channels.
pub const FFZ_GLOBAL_URL: &'static str = "https://api.frankerfacez.com/v1/set/global";

/// Where FrankerFaceZ lists the emotes of one channel.
pub const FFZ_CHANNEL_URL: &'static str = "https://api.frankerfacez.com/v1/room";

/// The page on which TwitchMetrics lists the emotes of the channel `channel`, whose
/// user has the number `user_id`.
pub fn twitchmetrics_channel_page(user_id: &str, channel: &str) -> (url: String)
    ensures
        url@ == TWITCHMETRICS_URL@ + "/c/"@ + user_id@ + "-"@ + channel@ + "/emotes"@,
{
    String::from_str(TWITCHMETRICS_URL).concat("/c/").concat(user_id).concat("-").concat(
        channel,
    ).concat("/emotes")
}

/// The page on which TwitchMetrics lists the emotes of all channels.
pub fn twitchmetrics_global_page() -> (url: String)
    ensures
        url@ == TWITCHMETRICS_URL@ + "/emotes"@,
{
    String::from_str(TWITCHMETRICS_URL).concat("/emotes")
}

/// The address at which a provider lists the emotes of `channel`, or of all channels
/// where no channel is given: `global` for all, `per_channel`, a slash and the name
/// for one.
pub fn listing_page(global: &str, per_channel: &str, channel: Option<&str>) -> (url: String)
    ensures
        url@ == (match channel {
            Some(c) => per_channel@ + "/"@ + c@,
            None => global@,
        }),
{
    match channel {
        Some(c) => String::from_str(per_channel).concat("/").concat(c),
        None => String::from_str(global),
    }
}

/// The address at which BetterTTV searches for an emote by its name.
pub fn bttv_search(name: &str) -> (url: String)
    ensures
        url@ == "https://api.betterttv.net/3/emotes/shared/search?query="@ + name@
            + "&offset=0&limit=1"@,
{
    String::from_str("https://api.betterttv.net/3/emotes/shared/search?query=").concat(name).concat(
        "&offset=0&limit=1",
    )
}

/// The address at which FrankerFaceZ searches for an emote by its name.
pub fn ffz_search(name: &str) -> (url: String)
    ensures
        url@ == "https://api.frankerfacez.com/v1/emoticons?q="@ + name@ + "&per_page=1"@,
{
    String::from_str("https://api.frankerfacez.com/v1/emoticons?q=").concat(name).concat(
        "&per_page=1",
    )
}

/// The addresses of the three sizes of a picture: `base`, then one of `sizes`.
pub fn sized_urls(base: &str, sizes: (&str, &str, &str)) -> (urls: Vec<String>)
    ensures
        urls@.len() == 3,
        urls@[0]@ == base@ + sizes.0@,
        urls@[1]@ == base@ + sizes.1@,
        urls@[2]@ == base@ + sizes.2@,
{
    let mut urls: Vec<String> = Vec::new();
    urls.push(String::from_str(base).concat(sizes.0));
    urls.push(String::from_str(base).concat(sizes.1));
    urls.push(String::from_str(base).concat(sizes.2));
    urls
}

/// The addresses of the pictures of the BetterTTV emote `id`.
pub fn bttv_urls(id: &str) -> (urls: Vec<String>)
    ensures
        urls@.len() == 3,
        urls@[0]@ == BTTV_IMAGE_URL@ + id@ + "/1x"@,
        urls@[1]@ == BTTV_IMAGE_URL@ + id@ + "/2x"@,
        urls@[2]@ == BTTV_IMAGE_URL@ + id@ + "/3x"@,
{
    let base = String::from_str(BTTV_IMAGE_URL).concat(id);
    sized_urls(base.as_str(), ("/1x", "/2x", "/3x"))
}

/// The address of a FrankerFaceZ picture that the catalog gives without its scheme.
pub fn ffz_url(url: &str) -> (full: String)
    ensures
        full@ == "https:"@ + url@,
{
    String::from_str("https:").concat(url)
}

/// The part of the address of a picture before its last slash, or `None` where it has
/// no slash: TwitchMetrics serves the sizes of a picture under one such address.
pub fn image_base<'a>(link: &'a str) -> (base: Option<&'a str>)
    ensures
        match base {
            Some(b) => last_byte(link.spec_bytes(), SLASH, link.spec_bytes().len() as int) >= 0
                && b.spec_bytes() == link.spec_bytes().subrange(
                0,
                last_byte(link.spec_bytes(), SLASH, link.spec_bytes().len() as int),
            ),
            None => last_byte(link.spec_bytes(), SLASH, link.spec_bytes().len() as int) < 0,
        },
{
    let bytes = link.as_bytes();
    let mut n: usize = bytes.len();
    while n > 0 && bytes[n - 1] != SLASH
        invariant
            n <= bytes@.len(),
            last_byte(bytes@, SLASH, bytes@.len() as int) == last_byte(bytes@, SLASH, n as int),
        decreases n,
    {
        n = n - 1;
    }
    if n == 0 {
        None
    } else {
        proof {
            lemma_str_bytes_valid(link);
            is_char_boundary_iff_not_is_continuation_byte(bytes@, n - 1);
        }
        let (base, _) = link.split_at(n - 1);
        Some(base)
    }
}

} // verus!
