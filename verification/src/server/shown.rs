//! A request, spelled out for whoever reads that it is not implemented.

use vstd::prelude::*;

use crate::proto::msg::{Codec, Req};
use crate::server::permissions;
use crate::text;

verus! {

/// Text in quotes, with whatever cannot be printed escaped.
pub uninterp spec fn quoted(text: Seq<char>) -> Seq<char>;

/// `format!` with `str`'s `Debug`: the text in quotes and escaped, which depends on
/// the text alone.
#[verifier::external_body]
fn quote(text: &str) -> (shown: String)
    ensures
        shown@ == quoted(text@),
{
    format!("{text:?}")
}

/// Bytes in decimal, with commas between them.
pub open spec fn listed(bytes: Seq<u8>) -> Seq<char>
    decreases bytes.len(),
{
    if bytes.len() == 0 {
        Seq::empty()
    } else if bytes.len() == 1 {
        text::decimal(bytes[0] as nat)
    } else {
        listed(bytes.drop_last()) + ", "@ + text::decimal(bytes.last() as nat)
    }
}

/// An avatar's hash, if there is one.
pub open spec fn avatar(hash: Option<[u8; 32]>) -> Seq<char> {
    match hash {
        None => "None"@,
        Some(hash) => "Some(["@ + listed(hash@) + "])"@,
    }
}

pub open spec fn switch(on: bool) -> Seq<char> {
    if on {
        "true"@
    } else {
        "false"@
    }
}

pub open spec fn codec_name(codec: Codec) -> Seq<char> {
    match codec {
        Codec::Av1 => "Av1"@,
        Codec::H265 => "H265"@,
        Codec::H264 => "H264"@,
    }
}

/// A number behind the name of what it identifies.
pub open spec fn tagged(tag: Seq<char>, id: nat) -> Seq<char> {
    tag + "("@ + text::decimal(id) + ")"@
}

/// A request as it is spelled out.
pub open spec fn shown(req: Req) -> Seq<char> {
    match req {
        Req::SetRoom(None) => "SetRoom(None)"@,
        Req::SetRoom(Some(room)) => "SetRoom(Some("@ + tagged("RoomId"@, room.0 as nat) + "))"@,
        Req::SetProfile { name, avatar: hash } => "SetProfile { name: "@ + quoted(name@)
            + ", avatar: "@ + avatar(hash) + " }"@,
        Req::SetMedia { mic, screen, share_audio, screen_kbps, codec } => "SetMedia { mic: "@
            + switch(mic) + ", screen: "@ + switch(screen) + ", share_audio: "@ + switch(
            share_audio,
        ) + ", screen_kbps: "@ + text::decimal(screen_kbps as nat) + ", codec: "@ + codec_name(
            codec,
        ) + " }"@,
        Req::RequestKeyframe(id) => "RequestKeyframe("@ + tagged("MediaId"@, id.0 as nat) + ")"@,
        Req::CreateRoom { name } => "CreateRoom { name: "@ + quoted(name@) + " }"@,
        Req::RenameRoom { room, name } => "RenameRoom { room: "@ + tagged(
            "RoomId"@,
            room.0 as nat,
        ) + ", name: "@ + quoted(name@) + " }"@,
        Req::DeleteRoom(room) => "DeleteRoom("@ + tagged("RoomId"@, room.0 as nat) + ")"@,
        Req::CreateInvite { role, ttl_secs } => "CreateInvite { role: "@ + permissions::role_name(
            role,
        ) + ", ttl_secs: "@ + text::decimal(ttl_secs as nat) + " }"@,
        Req::SetRole { user, role } => "SetRole { user: "@ + tagged("UserId"@, user.0 as nat)
            + ", role: "@ + permissions::role_name(role) + " }"@,
        Req::RemoveUser(user) => "RemoveUser("@ + tagged("UserId"@, user.0 as nat) + ")"@,
    }
}

fn list(bytes: &[u8]) -> (shown: String)
    ensures
        shown@ == listed(bytes@),
{
    let mut shown = String::new();
    let mut i: usize = 0;
    assert(shown@ =~= listed(bytes@.take(0)));
    while i < bytes.len()
        invariant
            i <= bytes@.len(),
            shown@ == listed(bytes@.take(i as int)),
        decreases bytes@.len() - i,
    {
        assert(bytes@.take(i + 1).drop_last() =~= bytes@.take(i as int));
        if i > 0 {
            shown.append(", ");
        }
        shown.append(text::decimal_string(bytes[i] as u64).as_str());
        i += 1;
        assert(i == 1 ==> shown@ =~= text::decimal(bytes@[0] as nat));
    }
    assert(bytes@.take(i as int) =~= bytes@);
    shown
}

fn show_avatar(hash: &Option<[u8; 32]>) -> (shown: String)
    ensures
        shown@ == avatar(*hash),
{
    match hash {
        None => "None".to_string(),
        Some(hash) => {
            let mut shown = "Some([".to_string();
            shown.append(list(hash.as_slice()).as_str());
            shown.append("])");
            shown
        },
    }
}

fn show_switch(on: bool) -> (shown: &'static str)
    ensures
        shown@ == switch(on),
{
    if on {
        "true"
    } else {
        "false"
    }
}

fn show_codec(codec: Codec) -> (shown: &'static str)
    ensures
        shown@ == codec_name(codec),
{
    match codec {
        Codec::Av1 => "Av1",
        Codec::H265 => "H265",
        Codec::H264 => "H264",
    }
}

fn show_tagged(tag: &str, id: u64) -> (shown: String)
    ensures
        shown@ == tagged(tag@, id as nat),
{
    let mut shown = tag.to_string();
    shown.append("(");
    shown.append(text::decimal_string(id).as_str());
    shown.append(")");
    shown
}

/// A request as it is spelled out.
pub fn show(req: &Req) -> (spelled: String)
    ensures
        spelled@ == shown(*req),
{
    let mut spelled = String::new();
    match req {
        Req::SetRoom(None) => {
            spelled.append("SetRoom(None)");
        },
        Req::SetRoom(Some(room)) => {
            spelled.append("SetRoom(Some(");
            spelled.append(show_tagged("RoomId", room.0).as_str());
            spelled.append("))");
        },
        Req::SetProfile { name, avatar: hash } => {
            spelled.append("SetProfile { name: ");
            spelled.append(quote(name.as_str()).as_str());
            spelled.append(", avatar: ");
            spelled.append(show_avatar(hash).as_str());
            spelled.append(" }");
        },
        Req::SetMedia { mic, screen, share_audio, screen_kbps, codec } => {
            spelled.append("SetMedia { mic: ");
            spelled.append(show_switch(*mic));
            spelled.append(", screen: ");
            spelled.append(show_switch(*screen));
            spelled.append(", share_audio: ");
            spelled.append(show_switch(*share_audio));
            spelled.append(", screen_kbps: ");
            spelled.append(text::decimal_string(*screen_kbps as u64).as_str());
            spelled.append(", codec: ");
            spelled.append(show_codec(*codec));
            spelled.append(" }");
        },
        Req::RequestKeyframe(id) => {
            spelled.append("RequestKeyframe(");
            spelled.append(show_tagged("MediaId", id.0 as u64).as_str());
            spelled.append(")");
        },
        Req::CreateRoom { name } => {
            spelled.append("CreateRoom { name: ");
            spelled.append(quote(name.as_str()).as_str());
            spelled.append(" }");
        },
        Req::RenameRoom { room, name } => {
            spelled.append("RenameRoom { room: ");
            spelled.append(show_tagged("RoomId", room.0).as_str());
            spelled.append(", name: ");
            spelled.append(quote(name.as_str()).as_str());
            spelled.append(" }");
        },
        Req::DeleteRoom(room) => {
            spelled.append("DeleteRoom(");
            spelled.append(show_tagged("RoomId", room.0).as_str());
            spelled.append(")");
        },
        Req::CreateInvite { role, ttl_secs } => {
            spelled.append("CreateInvite { role: ");
            spelled.append(permissions::name_of(*role));
            spelled.append(", ttl_secs: ");
            spelled.append(text::decimal_string(*ttl_secs as u64).as_str());
            spelled.append(" }");
        },
        Req::SetRole { user, role } => {
            spelled.append("SetRole { user: ");
            spelled.append(show_tagged("UserId", user.0).as_str());
            spelled.append(", role: ");
            spelled.append(permissions::name_of(*role));
            spelled.append(" }");
        },
        Req::RemoveUser(user) => {
            spelled.append("RemoveUser(");
            spelled.append(show_tagged("UserId", user.0).as_str());
            spelled.append(")");
        },
    }
    assert(spelled@ =~= shown(*req));
    spelled
}

/// A request about somebody or about a track spells out whom or which, and one about a
/// role which.
pub proof fn a_request_spells_out_whom(
    user: crate::proto::ids::UserId,
    role: crate::proto::msg::Role,
    id: crate::proto::ids::MediaId,
)
    ensures
        shown(Req::RemoveUser(user)) == "RemoveUser("@ + "UserId"@ + "("@ + text::decimal(
            user.0 as nat,
        ) + ")"@ + ")"@,
        shown(Req::RequestKeyframe(id)) == "RequestKeyframe("@ + "MediaId"@ + "("@ + text::decimal(
            id.0 as nat,
        ) + ")"@ + ")"@,
        shown(Req::SetRole { user, role }) == "SetRole { user: "@ + "UserId"@ + "("@
            + text::decimal(user.0 as nat) + ")"@ + ", role: "@ + (match role {
            crate::proto::msg::Role::User => "User"@,
            crate::proto::msg::Role::Manager => "Manager"@,
            crate::proto::msg::Role::Admin => "Admin"@,
        }) + " }"@,
{
    assert(shown(Req::RemoveUser(user)) =~= "RemoveUser("@ + "UserId"@ + "("@ + text::decimal(
        user.0 as nat,
    ) + ")"@ + ")"@);
    assert(shown(Req::RequestKeyframe(id)) =~= "RequestKeyframe("@ + "MediaId"@ + "("@
        + text::decimal(id.0 as nat) + ")"@ + ")"@);
    assert(shown(Req::SetRole { user, role }) =~= "SetRole { user: "@ + "UserId"@ + "("@
        + text::decimal(user.0 as nat) + ")"@ + ", role: "@ + permissions::role_name(role)
        + " }"@);
}

/// A request about media spells out every switch, the bitrate and the codec.
pub proof fn a_request_spells_out_every_switch(
    mic: bool,
    screen: bool,
    share_audio: bool,
    screen_kbps: u32,
    codec: Codec,
)
    ensures
        shown(Req::SetMedia { mic, screen, share_audio, screen_kbps, codec })
            == "SetMedia { mic: "@ + (if mic {
            "true"@
        } else {
            "false"@
        }) + ", screen: "@ + (if screen {
            "true"@
        } else {
            "false"@
        }) + ", share_audio: "@ + (if share_audio {
            "true"@
        } else {
            "false"@
        }) + ", screen_kbps: "@ + text::decimal(screen_kbps as nat) + ", codec: "@ + (match codec {
            Codec::Av1 => "Av1"@,
            Codec::H265 => "H265"@,
            Codec::H264 => "H264"@,
        }) + " }"@,
{
}

/// A request about a profile spells out the name, quoted, and the avatar's hash, if any.
pub proof fn a_request_spells_out_a_profile(name: String, hash: Option<[u8; 32]>)
    ensures
        shown(Req::SetProfile { name, avatar: hash }) == "SetProfile { name: "@ + quoted(name@)
            + ", avatar: "@ + (match hash {
            None => "None"@,
            Some(hash) => "Some(["@ + listed(hash@) + "])"@,
        }) + " }"@,
{
}

/// Bytes are listed one by one: each in decimal, in order, with a comma and a space
/// between two.
pub proof fn bytes_are_listed_one_by_one(front: Seq<u8>, back: Seq<u8>, byte: u8)
    requires
        front.len() > 0,
        back.len() > 0,
    ensures
        listed(seq![byte]) == text::decimal(byte as nat),
        listed(front + back) == listed(front) + ", "@ + listed(back),
    decreases back.len(),
{
    let whole = front + back;
    assert(whole.drop_last() =~= front + back.drop_last());
    if back.len() == 1 {
        assert(whole.drop_last() =~= front);
        assert(listed(whole) == listed(front) + ", "@ + text::decimal(back[0] as nat));
    } else {
        bytes_are_listed_one_by_one(front, back.drop_last(), byte);
        assert(whole.last() == back.last());
        assert(listed(whole) =~= listed(front) + ", "@ + listed(back));
    }
}

} // verus!
