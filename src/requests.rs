use vstd::prelude::*;

verus! {

/// Body of a request that names a channel to create or enter.
pub struct ChannelRequest {
    pub name: String,
}

/// Path of a request for a channel's history.
pub struct ChannelPath {
    pub name: String,
}

/// Path of a request about a chat room by number.
pub struct Info {
    pub chatroom_id: i32,
}

/// Body of a registration request.
pub struct RegisterRequest {
    pub username: String,
    pub password: String,
}

/// Body of a login request.
pub struct LoginRequest {
    pub username: String,
    pub password: String,
}

/// Path of a request for the user statuses of a channel.
pub struct StatusRequest {
    pub name: String,
}

} // verus!
