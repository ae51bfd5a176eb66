//! The outbound side of a session: the registration handshake that opens
//! it. Each line is written as given, terminated by CR LF.
use vstd::prelude::*;
use vstd::string::*;

verus! {

/// `USER <name> 0 * :<realname>`, terminated by CR LF.
pub fn user_line(name: &str, realname: &str) -> (r: String)
    ensures
        r@ == "USER "@ + name@ + " 0 * :"@ + realname@ + "\r\n"@,
{
    let mut r = String::from_str("USER ");
    r.append(name);
    r.append(" 0 * :");
    r.append(realname);
    r.append("\r\n");
    r
}

/// `NICK <name>`, terminated by CR LF.
pub fn nick_line(name: &str) -> (r: String)
    ensures
        r@ == "NICK "@ + name@ + "\r\n"@,
{
    let mut r = String::from_str("NICK ");
    r.append(name);
    r.append("\r\n");
    r
}

/// The two lines that open a session, in the order they are sent: `USER`,
/// then `NICK`.
pub fn registration(name: &str, realname: &str) -> (r: Vec<String>)
    ensures
        r@.len() == 2,
        r@[0]@ == "USER "@ + name@ + " 0 * :"@ + realname@ + "\r\n"@,
        r@[1]@ == "NICK "@ + name@ + "\r\n"@,
{
    let mut r: Vec<String> = Vec::new();
    r.push(user_line(name, realname));
    r.push(nick_line(name));
    r
}

} // verus!
