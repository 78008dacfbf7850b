use vstd::prelude::*;
use vstd::string::StringExecFns;

verus! {

/// The view of an optional parent address text.
pub open spec fn parent_view(parent: Option<&String>) -> Option<Seq<char>> {
    match parent {
        Some(p) => Some(p@),
        None => None,
    }
}

/// The canonical text of a commit: the tree line, an optional parent line,
/// the author and committer lines, a blank line, then the message and a
/// final newline.
pub open spec fn commit_text(
    tree: Seq<char>,
    parent: Option<Seq<char>>,
    author: Seq<char>,
    committer: Seq<char>,
    message: Seq<char>,
) -> Seq<char> {
    let parent_line = match parent {
        Some(p) => "parent "@ + p + "\n"@,
        None => Seq::empty(),
    };
    "tree "@ + tree + "\n"@ + parent_line + "author "@ + author + "\n"@ + "committer "@ + committer
        + "\n"@ + "\n"@ + message + "\n"@
}

/// Renders the text of a commit from complete author and committer lines.
pub fn format_commit(
    tree_sha: &str,
    parent_sha: Option<&String>,
    author_line: &str,
    committer_line: &str,
    message: &str,
) -> (r: String)
    ensures
        r@ == commit_text(tree_sha@, parent_view(parent_sha), author_line@, committer_line@, message@),
{
    let mut r = String::from_str("tree ");
    r.append(tree_sha);
    r.append("\n");
    match parent_sha {
        Some(p) => {
            r.append("parent ");
            r.append(p.as_str());
            r.append("\n");
        },
        None => {},
    }
    r.append("author ");
    r.append(author_line);
    r.append("\n");
    r.append("committer ");
    r.append(committer_line);
    r.append("\n");
    r.append("\n");
    r.append(message);
    r.append("\n");
    let ghost parent_line = match parent_view(parent_sha) {
        Some(p) => "parent "@ + p + "\n"@,
        None => Seq::<char>::empty(),
    };
    assert(r@ =~= commit_text(
        tree_sha@,
        parent_view(parent_sha),
        author_line@,
        committer_line@,
        message@,
    ));
    r
}

/// Relies on chrono::Utc::now and its `format`: the current time as text.
/// Nothing is known of the value.
#[verifier::external_body]
fn get_current_time() -> (r: String) {
    chrono::Utc::now().format("%a %b %e %H:%M:%S %Y %z").to_string()
}

/// An identity followed by a space and a time.
pub fn signature_line(identity: &str, time: &str) -> (r: String)
    ensures
        r@ == identity@ + " "@ + time@,
{
    let mut r = String::from_str(identity);
    r.append(" ");
    r.append(time);
    r
}

/// Renders the text of a commit, stamping the author and committer lines
/// with the current time.
pub fn create_commit_object(
    tree_sha: &str,
    parent_sha: Option<&String>,
    author: &str,
    committer: &str,
    message: &str,
) -> (r: String)
    ensures
        exists|t1: Seq<char>, t2: Seq<char>|
            r@ == commit_text(
                tree_sha@,
                parent_view(parent_sha),
                author@ + " "@ + t1,
                committer@ + " "@ + t2,
                message@,
            ),
{
    let author_time = get_current_time();
    let author_line = signature_line(author, author_time.as_str());
    let committer_time = get_current_time();
    let committer_line = signature_line(committer, committer_time.as_str());
    let r = format_commit(
        tree_sha,
        parent_sha,
        author_line.as_str(),
        committer_line.as_str(),
        message,
    );
    assert(r@ == commit_text(
        tree_sha@,
        parent_view(parent_sha),
        author@ + " "@ + author_time@,
        committer@ + " "@ + committer_time@,
        message@,
    ));
    r
}

} // verus!
