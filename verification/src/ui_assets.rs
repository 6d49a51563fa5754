//! The frontend files served by the app, by web path. The app gathers them
//! from its `ui-dist` directory when it starts; without that directory the
//! table is empty, every lookup misses, and the app shows the page that says
//! so.
use vstd::prelude::*;
use vstd::string::*;

use crate::text::owned;

verus! {

/// The frontend files: web paths (`/index.html`, `/assets/app.js`, ...) and
/// their contents, in the order in which they were added.
pub struct AssetTable {
    files: Vec<(String, Vec<u8>)>,
}

impl View for AssetTable {
    type V = Seq<(Seq<char>, Seq<u8>)>;

    closed spec fn view(&self) -> Seq<(Seq<char>, Seq<u8>)> {
        self.files@.map_values(|f: (String, Vec<u8>)| (f.0@, f.1@))
    }
}

/// The contents of the first file of `files` at the web path `path`.
pub open spec fn asset_lookup(files: Seq<(Seq<char>, Seq<u8>)>, path: Seq<char>) -> Option<Seq<u8>>
    decreases files.len(),
{
    if files.len() == 0 {
        None
    } else if files[0].0 == path {
        Some(files[0].1)
    } else {
        asset_lookup(files.drop_first(), path)
    }
}

/// No two files of `files` share a web path.
pub open spec fn distinct_paths(files: Seq<(Seq<char>, Seq<u8>)>) -> bool {
    forall|i: int, j: int| 0 <= i < j < files.len() ==> #[trigger] files[i].0 != #[trigger] files[j].0
}

/// The web paths of `files`.
pub open spec fn asset_paths(files: Seq<(Seq<char>, Seq<u8>)>) -> Set<Seq<char>> {
    files.map_values(|f: (Seq<char>, Seq<u8>)| f.0).to_set()
}

/// A lookup finds a file exactly when one of the files has that web path.
proof fn lemma_lookup_some(files: Seq<(Seq<char>, Seq<u8>)>, path: Seq<char>)
    ensures
        asset_lookup(files, path) is Some <==> exists|i: int| 0 <= i < files.len() && files[i].0 == path,
    decreases files.len(),
{
    if files.len() > 0 {
        lemma_lookup_some(files.drop_first(), path);
        if files[0].0 != path {
            assert forall|i: int| 0 < i < files.len() && files[i].0 == path implies exists|k: int|
                0 <= k < files.drop_first().len() && files.drop_first()[k].0 == path by {
                assert(files.drop_first()[i - 1] == files[i]);
            }
        }
    }
}

/// Of a table whose web paths are distinct, the number of files is the
/// number of web paths, and a lookup succeeds exactly at those paths.
pub proof fn law_asset_count(files: Seq<(Seq<char>, Seq<u8>)>)
    requires
        distinct_paths(files),
    ensures
        asset_paths(files).len() == files.len(),
        forall|p: Seq<char>| #[trigger] asset_lookup(files, p) is Some <==> asset_paths(files).contains(p),
{
    let ps = files.map_values(|f: (Seq<char>, Seq<u8>)| f.0);
    assert(ps.no_duplicates()) by {
        assert forall|i: int, j: int| 0 <= i < ps.len() && 0 <= j < ps.len() && i != j implies ps[i] != ps[j] by {
            if i < j {
                assert(files[i].0 != files[j].0);
            } else {
                assert(files[j].0 != files[i].0);
            }
        }
    }
    ps.unique_seq_to_set();
    assert forall|p: Seq<char>| #[trigger] asset_lookup(files, p) is Some <==> asset_paths(files).contains(p) by {
        lemma_lookup_some(files, p);
        if asset_paths(files).contains(p) {
            assert(ps.contains(p));
            let i = choose|i: int| 0 <= i < ps.len() && ps[i] == p;
            assert(files[i].0 == p);
        }
        if asset_lookup(files, p) is Some {
            let i = choose|i: int| 0 <= i < files.len() && files[i].0 == p;
            assert(ps[i] == p);
            assert(ps.contains(p));
        }
    }
}

/// Looking up the path of a file just added to a table that had none there
/// gives exactly the added contents, whatever their length; every other
/// path gives what it gave before.
pub proof fn law_lookup_after_add(
    files: Seq<(Seq<char>, Seq<u8>)>,
    path: Seq<char>,
    body: Seq<u8>,
    other: Seq<char>,
)
    requires
        asset_lookup(files, path) is None,
    ensures
        asset_lookup(files.push((path, body)), path) == Some(body),
        other != path ==> asset_lookup(files.push((path, body)), other) == asset_lookup(files, other),
    decreases files.len(),
{
    let f = files.push((path, body));
    if files.len() == 0 {
        assert(f.drop_first() =~= Seq::<(Seq<char>, Seq<u8>)>::empty());
        assert(asset_lookup(f.drop_first(), other) is None);
        assert(f[0] == (path, body));
    } else {
        assert(f[0] == files[0]);
        assert(f.drop_first() =~= files.drop_first().push((path, body)));
        law_lookup_after_add(files.drop_first(), path, body, other);
    }
}

impl AssetTable {
    /// No two files share a web path.
    #[verifier::type_invariant]
    spec fn paths_are_distinct(self) -> bool {
        distinct_paths(self@)
    }

    /// A table without files.
    pub fn new() -> (t: Self)
        ensures
            t@ == Seq::<(Seq<char>, Seq<u8>)>::empty(),
    {
        let t = AssetTable { files: Vec::new() };
        assert(t@ =~= Seq::<(Seq<char>, Seq<u8>)>::empty());
        t
    }

    /// Adds the file `body` at the web path `web_path`, where there is no
    /// file yet.
    pub fn add(&mut self, web_path: String, body: Vec<u8>)
        requires
            asset_lookup(old(self)@, web_path@) is None,
        ensures
            final(self)@ == old(self)@.push((web_path@, body@)),
    {
        proof {
            use_type_invariant(&*self);
            lemma_lookup_some(self@, web_path@);
        }
        let ghost before = self@;
        let ghost entry = (web_path@, body@);
        let mut files: Vec<(String, Vec<u8>)> = Vec::new();
        std::mem::swap(&mut files, &mut self.files);
        files.push((web_path, body));
        assert(files@.map_values(|f: (String, Vec<u8>)| (f.0@, f.1@)) =~= before.push(entry));
        self.files = files;
    }

    /// The number of files, which is the number of web paths.
    pub fn len(&self) -> (n: usize)
        ensures
            n == self@.len(),
            n == asset_paths(self@).len(),
            distinct_paths(self@),
    {
        proof {
            use_type_invariant(self);
            law_asset_count(self@);
        }
        self.files.len()
    }
}

/// The file at a web path, if there is one.
pub fn get<'a>(assets: &'a AssetTable, path: &str) -> (r: Option<&'a [u8]>)
    ensures
        match r {
            Some(b) => asset_lookup(assets@, path@) == Some(b@),
            None => asset_lookup(assets@, path@) is None,
        },
{
    let wanted = owned(path);
    let ghost v = assets@;
    let mut i: usize = 0;
    assert(v.skip(0) =~= v);
    while i < assets.files.len()
        invariant
            i <= assets.files@.len(),
            v == assets@,
            wanted@ == path@,
            asset_lookup(v, path@) == asset_lookup(v.skip(i as int), path@),
        decreases assets.files@.len() - i,
    {
        assert(v.skip(i as int)[0] == v[i as int]);
        assert(v.skip(i as int).drop_first() =~= v.skip(i + 1));
        if assets.files[i].0 == wanted {
            return Some(assets.files[i].1.as_slice());
        }
        i = i + 1;
    }
    None
}

/// Whether any frontend file is there: whether some web path has a file.
pub fn has_assets(assets: &AssetTable) -> (r: bool)
    ensures
        r == (assets@.len() > 0),
        r <==> exists|p: Seq<char>| #[trigger] asset_lookup(assets@, p) is Some,
{
    proof {
        if assets@.len() > 0 {
            lemma_lookup_some(assets@, assets@[0].0);
        }
        if exists|p: Seq<char>| #[trigger] asset_lookup(assets@, p) is Some {
            let p = choose|p: Seq<char>| #[trigger] asset_lookup(assets@, p) is Some;
            lemma_lookup_some(assets@, p);
        }
    }
    assets.len() > 0
}

/// The page shown when the frontend files are missing.
pub const MISSING_UI_HTML: &'static str = r#"<!doctype html>
<html lang="en">
<head>
  <meta charset="utf-8">
  <meta name="viewport" content="width=device-width, initial-scale=1">
  <title>Visual Git UI Missing</title>
</head>
<body>
  <h1>Frontend assets are missing</h1>
  <p>Development: run <code>npm run ui:dev</code> and open <code>http://127.0.0.1:5173</code>.</p>
  <p>Production/release: run <code>npm run ui:build</code> before building Rust.</p>
</body>
</html>
"#;

/// The page shown in place of the frontend when its files are missing.
pub fn missing_assets_html() -> (r: &'static [u8])
    ensures
        r@ == MISSING_UI_HTML.spec_bytes(),
{
    MISSING_UI_HTML.as_bytes()
}

} // verus!
