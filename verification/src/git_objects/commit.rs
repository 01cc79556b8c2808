use vstd::prelude::*;

use crate::git_objects::framing::{frame, spec_frame};
use crate::git_objects::hash::hex_digit_str;
use crate::git_objects::numerals::dec_digits;
use crate::git_objects::GitObjectType;
use vstd::utf8::encode_utf8;

verus! {

/// Who a commit is recorded for. Injected by the caller rather than read
/// from hidden configuration, so the payload is a pure function of the
/// arguments.
pub struct CommitIdentity {
    pub name: String,
    pub email: String,
    pub timezone: String,
}

/// The decimal text of a number, as characters.
pub open spec fn dec_chars(n: nat) -> Seq<char> {
    dec_digits(n).map_values(|b: u8| b as char)
}

/// One identity line of a commit body: the prefix names the role.
pub open spec fn ident_line(
    prefix: Seq<char>,
    name: Seq<char>,
    email: Seq<char>,
    timestamp: nat,
    timezone: Seq<char>,
) -> Seq<char> {
    prefix + name + " <"@ + email + "> "@ + dec_chars(timestamp) + " "@ + timezone + "\n"@
}

/// The text of a commit body: a tree line, an optional parent line, an
/// author line, an identical committer line, a blank line, the message, and
/// a trailing newline.
pub open spec fn commit_text(
    tree_hash: Seq<char>,
    parent_hash: Option<Seq<char>>,
    message: Seq<char>,
    name: Seq<char>,
    email: Seq<char>,
    timestamp: nat,
    timezone: Seq<char>,
) -> Seq<char> {
    "tree "@ + tree_hash + "\n"@ + (match parent_hash {
        Some(p) => "parent "@ + p + "\n"@,
        None => Seq::<char>::empty(),
    }) + ident_line("author "@, name, email, timestamp, timezone) + ident_line(
        "committer "@,
        name,
        email,
        timestamp,
        timezone,
    ) + "\n"@ + message + "\n"@
}

/// The view of an optional borrowed hash text.
pub open spec fn opt_text(p: Option<&str>) -> Option<Seq<char>> {
    match p {
        Some(s) => Some(s@),
        None => None,
    }
}

/// Appends the decimal text of `n`.
fn append_decimal(out: &mut String, n: u64)
    ensures
        final(out)@ == old(out)@ + dec_chars(n as nat),
    decreases n,
{
    if n < 10 {
        out.append(hex_digit_str(n as u8));
        proof {
            assert(dec_chars(n as nat) =~= seq![(48 + n) as u8 as char]);
        }
    } else {
        append_decimal(out, n / 10);
        out.append(hex_digit_str((n % 10) as u8));
        proof {
            assert(dec_chars(n as nat) =~= dec_chars((n / 10) as nat) + seq![
                (48 + n % 10) as u8 as char,
            ]);
        }
    }
}

/// Appends one identity line.
fn append_ident_line(out: &mut String, prefix: &str, author: &CommitIdentity, timestamp: u64)
    ensures
        final(out)@ == old(out)@ + ident_line(
            prefix@,
            author.name@,
            author.email@,
            timestamp as nat,
            author.timezone@,
        ),
{
    out.append(prefix);
    out.append(author.name.as_str());
    out.append(" <");
    out.append(author.email.as_str());
    out.append("> ");
    append_decimal(out, timestamp);
    out.append(" ");
    out.append(author.timezone.as_str());
    out.append("\n");
    proof {
        assert(out@ =~= old(out)@ + ident_line(
            prefix@,
            author.name@,
            author.email@,
            timestamp as nat,
            author.timezone@,
        ));
    }
}

/// Composes a commit payload referencing a tree and an optional parent,
/// framed as a commit object. Purely textual: neither fingerprint is checked
/// against the store.
pub fn create_commit_object(
    tree_hash: &str,
    parent_hash: Option<&str>,
    message: &str,
    author: &CommitIdentity,
    timestamp: u64,
) -> (r: Vec<u8>)
    ensures
        r@ == spec_frame(
            GitObjectType::Commit,
            encode_utf8(
                commit_text(
                    tree_hash@,
                    opt_text(parent_hash),
                    message@,
                    author.name@,
                    author.email@,
                    timestamp as nat,
                    author.timezone@,
                ),
            ),
        ),
{
    let mut text = String::new();
    text.append("tree ");
    text.append(tree_hash);
    text.append("\n");
    match parent_hash {
        Some(p) => {
            text.append("parent ");
            text.append(p);
            text.append("\n");
        },
        None => {},
    }
    append_ident_line(&mut text, "author ", author, timestamp);
    append_ident_line(&mut text, "committer ", author, timestamp);
    text.append("\n");
    text.append(message);
    text.append("\n");
    proof {
        assert(text@ =~= commit_text(
            tree_hash@,
            opt_text(parent_hash),
            message@,
            author.name@,
            author.email@,
            timestamp as nat,
            author.timezone@,
        ));
    }
    frame(GitObjectType::Commit, text.as_str().as_bytes())
}

} // verus!
