//! Icons as single characters.

use vstd::prelude::*;

use crate::text::{chars_of, eq_ignore_case, lower, trim, trim_seq};

verus! {

/// Whether `name` is `known`, letter case and space around it aside.
pub open spec fn is(name: Seq<char>, known: Seq<char>) -> bool {
    lower(trim_seq(name)) == lower(known)
}

/// The character that stands for an icon, where there is one.
pub open spec fn glyph(name: Seq<char>) -> Option<Seq<char>> {
    if is(name, "cloud"@) {
        Some("☁"@)
    } else if is(name, "database"@) || is(name, "db"@) {
        Some("🗄"@)
    } else if is(name, "server"@) {
        Some("🖥"@)
    } else if is(name, "disk"@) || is(name, "storage"@) {
        Some("💾"@)
    } else if is(name, "internet"@) || is(name, "web"@) || is(name, "globe"@) {
        Some("🌐"@)
    } else if is(name, "user"@) {
        Some("👤"@)
    } else if is(name, "users"@) || is(name, "group"@) {
        Some("👥"@)
    } else if is(name, "lock"@) || is(name, "secure"@) {
        Some("🔒"@)
    } else if is(name, "key"@) {
        Some("🔑"@)
    } else if is(name, "mail"@) || is(name, "email"@) || is(name, "envelope"@) {
        Some("✉"@)
    } else if is(name, "phone"@) || is(name, "mobile"@) {
        Some("📱"@)
    } else if is(name, "desktop"@) || is(name, "laptop"@) {
        Some("💻"@)
    } else if is(name, "file"@) {
        Some("📄"@)
    } else if is(name, "folder"@) {
        Some("📁"@)
    } else if is(name, "code"@) {
        Some("🖥"@)
    } else if is(name, "bug"@) {
        Some("🐛"@)
    } else if is(name, "search"@) {
        Some("🔍"@)
    } else if is(name, "chart"@) || is(name, "graph"@) {
        Some("📊"@)
    } else if is(name, "cpu"@) || is(name, "processor"@) {
        Some("🧠"@)
    } else if is(name, "memory"@) || is(name, "ram"@) {
        Some("🧮"@)
    } else if is(name, "network"@) || is(name, "firewall"@) || is(name, "router"@) || is(
        name,
        "switch"@,
    ) {
        Some("🌐"@)
    } else if is(name, "queue"@) || is(name, "message"@) {
        Some("📬"@)
    } else if is(name, "cache"@) {
        Some("⚡"@)
    } else {
        None
    }
}

/// The character that stands for an icon; `None` for an unknown name.
pub fn icon_glyph(name: &str) -> (r: Option<&'static str>)
    ensures
        match glyph(name@) {
            Some(g) => r matches Some(s) && s@ == g,
            None => r is None,
        },
{
    let chars = chars_of(name);
    let n = trim(chars.as_slice());
    if eq_ignore_case(n, "cloud") {
        Some("☁")
    } else if eq_ignore_case(n, "database") || eq_ignore_case(n, "db") {
        Some("🗄")
    } else if eq_ignore_case(n, "server") {
        Some("🖥")
    } else if eq_ignore_case(n, "disk") || eq_ignore_case(n, "storage") {
        Some("💾")
    } else if eq_ignore_case(n, "internet") || eq_ignore_case(n, "web") || eq_ignore_case(
        n,
        "globe",
    ) {
        Some("🌐")
    } else if eq_ignore_case(n, "user") {
        Some("👤")
    } else if eq_ignore_case(n, "users") || eq_ignore_case(n, "group") {
        Some("👥")
    } else if eq_ignore_case(n, "lock") || eq_ignore_case(n, "secure") {
        Some("🔒")
    } else if eq_ignore_case(n, "key") {
        Some("🔑")
    } else if eq_ignore_case(n, "mail") || eq_ignore_case(n, "email") || eq_ignore_case(
        n,
        "envelope",
    ) {
        Some("✉")
    } else if eq_ignore_case(n, "phone") || eq_ignore_case(n, "mobile") {
        Some("📱")
    } else if eq_ignore_case(n, "desktop") || eq_ignore_case(n, "laptop") {
        Some("💻")
    } else if eq_ignore_case(n, "file") {
        Some("📄")
    } else if eq_ignore_case(n, "folder") {
        Some("📁")
    } else if eq_ignore_case(n, "code") {
        Some("🖥")
    } else if eq_ignore_case(n, "bug") {
        Some("🐛")
    } else if eq_ignore_case(n, "search") {
        Some("🔍")
    } else if eq_ignore_case(n, "chart") || eq_ignore_case(n, "graph") {
        Some("📊")
    } else if eq_ignore_case(n, "cpu") || eq_ignore_case(n, "processor") {
        Some("🧠")
    } else if eq_ignore_case(n, "memory") || eq_ignore_case(n, "ram") {
        Some("🧮")
    } else if eq_ignore_case(n, "network") || eq_ignore_case(n, "firewall") || eq_ignore_case(
        n,
        "router",
    ) || eq_ignore_case(n, "switch") {
        Some("🌐")
    } else if eq_ignore_case(n, "queue") || eq_ignore_case(n, "message") {
        Some("📬")
    } else if eq_ignore_case(n, "cache") {
        Some("⚡")
    } else {
        None
    }
}

} // verus!
