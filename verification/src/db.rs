//! The address of the controller's database.

use vstd::prelude::*;

verus! {

/// The PostgreSQL connection address for the given user, password, host and
/// database name.
pub open spec fn connection_url_of(user: Seq<char>, password: Seq<char>, host: Seq<char>, db: Seq<char>) -> Seq<char> {
    "postgresql://"@ + user + seq![':'] + password + seq!['@'] + host + seq!['/'] + db
}

/// The PostgreSQL connection address
/// (`format!("postgresql://{}:{}@{}/{}", user, password, host, db)`).
pub fn connection_url(user: &str, password: &str, host: &str, db: &str) -> (r: String)
    ensures
        r@ == connection_url_of(user@, password@, host@, db@),
{
    let r = "postgresql://".to_owned().concat(user).concat(":").concat(password).concat("@").concat(
        host,
    ).concat("/").concat(db);
    proof {
        reveal_strlit(":");
        reveal_strlit("@");
        reveal_strlit("/");
    }
    r
}

/// The address is `postgresql://` followed by the user, `:`, the password,
/// `@`, the host, `/` and the database name, each given one unchanged, for
/// every input; in particular the password stands between the `:` that ends
/// the user and the `@` after it.
pub proof fn lemma_connection_url_parts(user: Seq<char>, password: Seq<char>, host: Seq<char>, db: Seq<char>)
    ensures
        connection_url_of(user, password, host, db).take(13) == "postgresql://"@,
        connection_url_of(user, password, host, db).skip(13) == user + seq![':'] + password + seq!['@']
            + host + seq!['/'] + db,
        connection_url_of(user, password, host, db).subrange(13, 13 + (user.len() as int)) == user,
        connection_url_of(user, password, host, db)[13 + (user.len() as int)] == ':',
        connection_url_of(user, password, host, db).subrange(
            14 + (user.len() as int),
            14 + (user.len() as int) + (password.len() as int),
        ) == password,
        connection_url_of(user, password, host, db)[14 + (user.len() as int) + (password.len() as int)] == '@',
        connection_url_of(user, password, host, db).subrange(
            15 + (user.len() as int) + (password.len() as int),
            15 + (user.len() as int) + (password.len() as int) + (host.len() as int),
        ) == host,
        connection_url_of(user, password, host, db).skip(16 + (user.len() as int) + (password.len() as int) + (host.len() as int))
            == db,
{
    reveal_strlit("postgresql://");
    let url = connection_url_of(user, password, host, db);
    let rest = user + seq![':'] + password + seq!['@'] + host + seq!['/'] + db;
    assert("postgresql://"@.len() == 13);
    assert(url =~= "postgresql://"@ + rest);
    assert(url.take(13) =~= "postgresql://"@);
    assert(url.skip(13) =~= rest);
    assert(url.subrange(13, 13 + (user.len() as int)) =~= user);
    assert(url.subrange(14 + (user.len() as int), 14 + (user.len() as int) + (password.len() as int)) =~= password);
    assert(url.subrange(15 + (user.len() as int) + (password.len() as int), 15 + (user.len() as int) + (password.len() as int) + (host.len() as int))
        =~= host);
    assert(url.skip(16 + (user.len() as int) + (password.len() as int) + (host.len() as int)) =~= db);
}

} // verus!
