//! The catalogue: discovers the shows under a content root, looks them up by
//! name, and renders the HTML index page, computed at most once.
//!
//! The index embeds catalogue-relative show links, never a scheme or host,
//! so its single cached rendering is correct for every host it is served
//! under; only the feeds resolve absolute links, per request.

use vstd::prelude::*;

verus! {

use vstd::relations::sorted_by;

broadcast use {vstd::seq_lib::group_to_multiset_ensures, vstd::multiset::group_multiset_axioms};

use crate::dir::{
    Directory, DirectoryV, DirectoryError, FsEntry, FsEntryV, EntryKind, entry_views,
    items_match_scan, dir_views, dir_names, sort_directories,
};
use crate::text::{
    lex_le_fn, last_segment, has_last_segment, path_file_name, plain_name,
    lemma_last_segment_append, lemma_map_values_multiset, str_eq_check,
};

/// One entry of the content root together with the listing of what it holds,
/// when it is a directory.
pub struct RootEntry {
    pub entry: FsEntry,
    pub children: Vec<FsEntry>,
}

pub ghost struct RootEntryV {
    pub entry: FsEntryV,
    pub children: Seq<FsEntryV>,
}

impl View for RootEntry {
    type V = RootEntryV;

    open spec fn view(&self) -> RootEntryV {
        RootEntryV { entry: self.entry@, children: entry_views(self.children@) }
    }
}

pub open spec fn root_views(s: Seq<RootEntry>) -> Seq<RootEntryV> {
    s.map_values(|re: RootEntry| re@)
}

/// A root entry becomes a show exactly when it is a directory and not a
/// hidden one.
pub open spec fn eligible_dir(e: FsEntryV) -> bool {
    e.kind == EntryKind::Dir && e.name.len() > 0 && e.name[0] != '.'
}

/// The names of the show-eligible root entries, in listing order.
pub open spec fn root_dir_names(l: Seq<RootEntryV>) -> Seq<Seq<char>> {
    l.filter(|re: RootEntryV| eligible_dir(re.entry)).map_values(|re: RootEntryV| re.entry.name)
}

/// A show that discovery may have produced from the listing `l` under the
/// root `base`: scanned from some eligible directory entry of the root.
pub open spec fn dir_from_listing(d: DirectoryV, base: Seq<char>, l: Seq<RootEntryV>) -> bool {
    exists|j: int|
        0 <= j < l.len() && eligible_dir(#[trigger] l[j].entry) && d.name == l[j].entry.name
            && d.path == base + "/"@ + l[j].entry.name && d.link == Some("/p/"@ + d.name)
            && items_match_scan(d.items, d.name, l[j].children)
}

/// Why an index render failed.
#[derive(Clone, Copy, PartialEq, Eq, Structural, Debug)]
pub enum SiteError {
    /// The index template does not compile.
    Template,
    /// The template engine refused to render the index.
    Render,
}

// ---------------------------------------------------------------------------
// Trusted boundary
// ---------------------------------------------------------------------------

/// The index page template.  The engine sees the catalogue as a pair of the
/// catalogue name and the rows, each row a pair of a show's name and its
/// link.
pub open spec fn index_template_spec() -> Seq<char> {
    "<!DOCTYPE html>\n<html><head><title>{{this.[0]}}</title></head><body>\n<h1>{{this.[0]}}</h1>\n<ul>\n{{#each this.[1]}}<li><a href=\"{{this.[1]}}\">{{this.[0]}}</a></li>\n{{/each}}</ul>\n</body></html>\n"@
}

fn index_template() -> (r: &'static str)
    ensures
        r@ == index_template_spec(),
{
    "<!DOCTYPE html>\n<html><head><title>{{this.[0]}}</title></head><body>\n<h1>{{this.[0]}}</h1>\n<ul>\n{{#each this.[1]}}<li><a href=\"{{this.[1]}}\">{{this.[0]}}</a></li>\n{{/each}}</ul>\n</body></html>\n"
}

/// Whether handlebars accepts a template: a function of the template text
/// alone.
pub uninterp spec fn template_compiles(tpl: Seq<char>) -> bool;

/// Relies on handlebars' `Handlebars::register_template_string` on a fresh
/// registry: whether the template compiles depends on the template alone.
#[verifier::external_body]
fn hb_template_ok(tpl: &str) -> (r: bool)
    ensures
        r == template_compiles(tpl@),
{
    handlebars::Handlebars::new().register_template_string("page", tpl).is_ok()
}

/// What handlebars renders for the given template, catalogue name and rows:
/// a function of these alone.
pub uninterp spec fn index_render_of(
    tpl: Seq<char>,
    name: Seq<char>,
    rows: Seq<(Seq<char>, Seq<char>)>,
) -> Seq<char>;

/// Whether handlebars renders these inputs at all: like the rendered text,
/// a function of the template, the name and the rows alone.
pub uninterp spec fn index_render_ok(
    tpl: Seq<char>,
    name: Seq<char>,
    rows: Seq<(Seq<char>, Seq<char>)>,
) -> bool;

/// Relies on handlebars' `Handlebars::render_template` on a fresh default
/// registry: both the rendered text and whether rendering succeeds depend on
/// the template and the data alone; the data handed over is the pair of the
/// name and the rows.
#[verifier::external_body]
fn hb_render_index(tpl: &str, name: &String, rows: &Vec<(String, String)>) -> (r: Option<String>)
    ensures
        (r is Some) == index_render_ok(
            tpl@,
            name@,
            rows@.map_values(|p: (String, String)| (p.0@, p.1@)),
        ),
        r matches Some(s) ==> s@ == index_render_of(
            tpl@,
            name@,
            rows@.map_values(|p: (String, String)| (p.0@, p.1@)),
        ),
{
    match handlebars::Handlebars::new().render_template(tpl, &(name, rows)) {
        Ok(s) => Some(s),
        Err(_) => None,
    }
}

// ---------------------------------------------------------------------------
// The catalogue itself
// ---------------------------------------------------------------------------

/// The catalogue of shows under one content root.
pub struct Site {
    pub path: String,
    pub name: String,
    pub template_ready: bool,
    pub dirs: Vec<Directory>,
    pub output_cache: Option<String>,
}

pub ghost struct SiteV {
    pub path: Seq<char>,
    pub name: Seq<char>,
    pub template_ready: bool,
    pub dirs: Seq<DirectoryV>,
    pub output_cache: Option<Seq<char>>,
}

impl View for Site {
    type V = SiteV;

    open spec fn view(&self) -> SiteV {
        SiteV {
            path: self.path@,
            name: self.name@,
            template_ready: self.template_ready,
            dirs: dir_views(self.dirs@),
            output_cache: match self.output_cache {
                Some(c) => Some(c@),
                None => None,
            },
        }
    }
}

/// The rows of the index page: each show's name next to its link.
pub open spec fn index_rows(dirs: Seq<DirectoryV>) -> Seq<(Seq<char>, Seq<char>)> {
    dirs.map_values(
        |d: DirectoryV|
            (
                d.name,
                match d.link {
                    Some(l) => l,
                    None => Seq::<char>::empty(),
                },
            ),
    )
}

/// Everything `to_html` promises, over the catalogue state before and after
/// one call and the text it returned, if any: the catalogue itself never
/// changes, a cached text is handed back as it is, a fresh render is exactly
/// what the template engine produces for the catalogue's rows, and is
/// cached, and the call succeeds whenever the engine renders these rows at
/// all.
pub open spec fn to_html_post(pre: SiteV, post: SiteV, r: Option<Seq<char>>) -> bool {
    &&& post.path == pre.path
    &&& post.name == pre.name
    &&& post.template_ready == pre.template_ready
    &&& post.dirs == pre.dirs
    &&& (pre.output_cache matches Some(c) ==> post == pre && r == Some(c))
    &&& (pre.output_cache is None && index_render_ok(
        index_template_spec(),
        pre.name,
        index_rows(pre.dirs),
    ) ==> r is Some)
    &&& (pre.output_cache is None ==> match r {
        Some(s) => s == index_render_of(index_template_spec(), pre.name, index_rows(pre.dirs))
            && post.output_cache == Some(s),
        None => post.output_cache is None,
    })
}

/// The render-cache law: the index is computed at most once.  After one call
/// has filled the cache, every later call observes exactly the same rendered
/// text and leaves the catalogue untouched, so the template engine's work is
/// never repeated.
pub proof fn lemma_render_cache_computes_once(
    s0: SiteV,
    s1: SiteV,
    v1: Seq<char>,
    s2: SiteV,
    r2: Option<Seq<char>>,
)
    requires
        to_html_post(s0, s1, Some(v1)),
        to_html_post(s1, s2, r2),
    ensures
        s1.output_cache == Some(v1),
        r2 == Some(v1),
        s2 == s1,
{
}

impl Site {
    /// A catalogue rooted at `path`, named after the path's final segment,
    /// with no shows yet and nothing cached.  The path must not end in a
    /// separator: its final segment is taken as it stands.
    pub fn new(path: String) -> (r: Result<Site, DirectoryError>)
        requires
            has_last_segment(path@),
        ensures
            r matches Ok(s) && s@.path == path@ && s@.name == last_segment(path@)
                && s@.template_ready == false && s@.dirs.len() == 0 && s@.output_cache is None,
    {
        let name = path_file_name(path.as_str());
        let s = Site {
            path,
            name,
            template_ready: false,
            dirs: Vec::new(),
            output_cache: None,
        };
        proof {
            assert(s@.dirs =~= Seq::<DirectoryV>::empty());
        }
        Ok(s)
    }

    /// Checks the index template once, at startup; a template that does not
    /// compile is a fatal configuration error, reported here and never at
    /// render time.
    pub fn prepare_static_files(&mut self) -> (r: Result<(), SiteError>)
        ensures
            final(self)@.path == old(self)@.path,
            final(self)@.name == old(self)@.name,
            final(self)@.dirs == old(self)@.dirs,
            final(self)@.output_cache == old(self)@.output_cache,
            final(self)@.template_ready == template_compiles(index_template_spec()),
            template_compiles(index_template_spec()) ==> (r matches Ok(v) && v == ()),
            !template_compiles(index_template_spec()) ==> r matches Err(SiteError::Template),
    {
        let ok = hb_template_ok(index_template());
        self.template_ready = ok;
        if ok {
            Ok(())
        } else {
            Err(SiteError::Template)
        }
    }

    /// Renders the HTML index, computing it at most once: the first
    /// successful render is cached, and every later call hands back exactly
    /// the cached text without touching the template engine again.  Fails
    /// only where the engine itself refuses the catalogue's rows.
    pub fn to_html(&mut self) -> (r: Result<String, SiteError>)
        requires
            old(self)@.template_ready,
        ensures
            to_html_post(
                old(self)@,
                final(self)@,
                match r {
                    Ok(s) => Some(s@),
                    Err(_) => None,
                },
            ),
            r matches Err(e) ==> e == SiteError::Render && old(self)@.output_cache is None,
    {
        match &self.output_cache {
            Some(c) => {
                return Ok(c.clone());
            },
            None => {},
        }
        let ghost target_rows = index_rows(self@.dirs);
        let mut rows: Vec<(String, String)> = Vec::new();
        let mut i: usize = 0;
        proof {
            assert(rows@.map_values(|p: (String, String)| (p.0@, p.1@)) =~= target_rows.take(0));
        }
        while i < self.dirs.len()
            invariant
                i <= self.dirs@.len(),
                target_rows == index_rows(self@.dirs),
                rows@.map_values(|p: (String, String)| (p.0@, p.1@)) =~= target_rows.take(i as int),
            decreases self.dirs@.len() - i,
        {
            let d = &self.dirs[i];
            let link = match &d.link {
                Some(l) => l.clone(),
                None => String::new(),
            };
            let ghost rows0 = rows@;
            rows.push((d.name.clone(), link));
            proof {
                let f = |p: (String, String)| (p.0@, p.1@);
                assert(rows@.map_values(f) =~= rows0.map_values(f).push(
                    (d.name@, link@),
                ));
                assert(self@.dirs[i as int] == self.dirs@[i as int]@);
                assert((d.name@, link@) == target_rows[i as int]);
                assert(rows@.map_values(f) =~= target_rows.take(i + 1));
            }
            i = i + 1;
        }
        proof {
            assert(target_rows.take(self.dirs@.len() as int) =~= target_rows);
        }
        match hb_render_index(index_template(), &self.name, &rows) {
            Some(s) => {
                let out = s.clone();
                self.output_cache = Some(s);
                Ok(out)
            },
            None => Err(SiteError::Render),
        }
    }

    /// Discovers the shows under the content root from its listing: every
    /// non-hidden subdirectory becomes a show, scanned from its own listing,
    /// and the shows are kept sorted ascending by name.  The listing's entry
    /// names must be plain path segments, as a directory listing yields
    /// them.  Run once, on a freshly constructed catalogue.
    pub fn detect_directories(&mut self, listing: &Vec<RootEntry>) -> (r: Result<(), DirectoryError>)
        requires
            old(self)@.dirs.len() == 0,
            forall|k: int|
                0 <= k < root_views(listing@).len() && eligible_dir(
                    #[trigger] root_views(listing@)[k].entry,
                ) ==> plain_name(root_views(listing@)[k].entry.name),
        ensures
            r matches Ok(v) && v == (),
            final(self)@.path == old(self)@.path,
            final(self)@.name == old(self)@.name,
            final(self)@.template_ready == old(self)@.template_ready,
            final(self)@.output_cache == old(self)@.output_cache,
            sorted_by(dir_names(final(self)@.dirs), lex_le_fn()),
            dir_names(final(self)@.dirs).to_multiset() == root_dir_names(
                root_views(listing@),
            ).to_multiset(),
            forall|k: int|
                0 <= k < final(self)@.dirs.len() ==> dir_from_listing(
                    #[trigger] final(self)@.dirs[k],
                    old(self)@.path,
                    root_views(listing@),
                ),
    {
        let ghost lv = root_views(listing@);
        let mut built: Vec<Directory> = Vec::new();
        let mut idx: usize = 0;
        proof {
            reveal(Seq::filter);
            assert(lv.take(0) =~= Seq::<RootEntryV>::empty());
            assert(dir_names(dir_views(built@)) =~= root_dir_names(lv.take(0)));
        }
        while idx < listing.len()
            invariant
                idx <= listing@.len(),
                lv == root_views(listing@),
                forall|k: int|
                    0 <= k < lv.len() && eligible_dir(#[trigger] lv[k].entry) ==> plain_name(
                        lv[k].entry.name,
                    ),
                dir_names(dir_views(built@)) == root_dir_names(lv.take(idx as int)),
                forall|m: int|
                    0 <= m < built@.len() ==> dir_from_listing(
                        #[trigger] dir_views(built@)[m],
                        self@.path,
                        lv,
                    ),
            decreases listing@.len() - idx,
        {
            let re = &listing[idx];
            let elig = re.entry.kind == EntryKind::Dir && re.entry.name.as_str().unicode_len() > 0
                && re.entry.name.as_str().get_char(0) != '.';
            proof {
                reveal(Seq::filter);
                let t = lv.take(idx + 1);
                assert(t.drop_last() =~= lv.take(idx as int));
                assert(t.last() == listing@[idx as int]@);
                assert(eligible_dir(t.last().entry) == elig);
                let pred = |x: RootEntryV| eligible_dir(x.entry);
                let namef = |x: RootEntryV| x.entry.name;
                if elig {
                    assert(t.filter(pred) == t.drop_last().filter(pred).push(t.last()));
                    assert(t.filter(pred).map_values(namef) =~= t.drop_last().filter(
                        pred,
                    ).map_values(namef).push(t.last().entry.name));
                } else {
                    assert(t.filter(pred) == t.drop_last().filter(pred));
                }
            }
            if elig {
                let mut p = self.path.clone();
                p.append("/");
                p.append(re.entry.name.as_str());
                proof {
                    assert(lv[idx as int].entry == re@.entry);
                    assert(plain_name(re.entry.name@));
                    lemma_last_segment_append(self@.path, re.entry.name@);
                    assert(p@ == self@.path + "/"@ + re.entry.name@);
                }
                let mut d = match Directory::new(p.as_str()) {
                    Ok(d) => d,
                    Err(e) => {
                        return Err(e);
                    },
                };
                match d.analyze(&re.children) {
                    Ok(_) => {},
                    Err(e) => {
                        return Err(e);
                    },
                }
                let ghost built0 = built@;
                built.push(d);
                proof {
                    assert(dir_views(built@) =~= dir_views(built0).push(d@));
                    assert(dir_names(dir_views(built@)) =~= dir_names(dir_views(built0)).push(
                        d@.name,
                    ));
                    assert(d@.name == lv[idx as int].entry.name);
                    assert(lv[idx as int].children == entry_views(re.children@));
                    assert(dir_from_listing(d@, self@.path, lv));
                }
            }
            idx = idx + 1;
        }
        proof {
            assert(lv.take(listing@.len() as int) =~= lv);
        }
        let sorted = sort_directories(built);
        let ghost builtv = dir_views(built@);
        let ghost sortedv = dir_views(sorted@);
        self.dirs = sorted;
        proof {
            lemma_map_values_multiset(sortedv, builtv, |d: DirectoryV| d.name);
            assert(dir_names(sortedv) == sortedv.map_values(|d: DirectoryV| d.name));
            assert(dir_names(builtv) == builtv.map_values(|d: DirectoryV| d.name));
            assert forall|k: int| 0 <= k < final(self)@.dirs.len() implies dir_from_listing(
                #[trigger] final(self)@.dirs[k],
                old(self)@.path,
                lv,
            ) by {
                let d = sortedv[k];
                assert(sortedv.contains(d));
                assert(sortedv.to_multiset().count(d) > 0);
                assert(builtv.to_multiset().count(d) > 0);
                assert(builtv.contains(d));
                let m = choose|m: int| 0 <= m < builtv.len() && builtv[m] == d;
                assert(dir_from_listing(builtv[m], old(self)@.path, lv));
            }
        }
        Ok(())
    }

    /// The first show with the given name, if any: a clone of it, never a
    /// failure.  An unknown name is an expected outcome, not an error.
    pub fn get_directory(&self, name: &str) -> (r: Option<Directory>)
        ensures
            match r {
                Some(d) => find_dir(self@.dirs, name@) == Some(d@),
                None => find_dir(self@.dirs, name@) is None,
            },
    {
        let ghost dv = self@.dirs;
        let mut i: usize = 0;
        proof {
            assert(dv.skip(0) =~= dv);
        }
        while i < self.dirs.len()
            invariant
                i <= self.dirs@.len(),
                dv == self@.dirs,
                find_dir(dv, name@) == find_dir(dv.skip(i as int), name@),
            decreases self.dirs@.len() - i,
        {
            let d = &self.dirs[i];
            proof {
                assert(dv.skip(i as int)[0] == dv[i as int]);
            }
            if str_eq_check(d.name.as_str(), name) {
                let c = d.clone();
                proof {
                    assert(dv.skip(i as int).len() > 0);
                    assert(find_dir(dv.skip(i as int), name@) == Some(dv[i as int]));
                }
                return Some(c);
            }
            proof {
                assert(dv.skip(i as int).drop_first() =~= dv.skip(i + 1));
            }
            i = i + 1;
        }
        proof {
            assert(dv.skip(self.dirs@.len() as int).len() == 0);
        }
        None
    }
}

/// The first show of `dirs` named `name`.
pub open spec fn find_dir(dirs: Seq<DirectoryV>, name: Seq<char>) -> Option<DirectoryV>
    decreases dirs.len(),
{
    if dirs.len() == 0 {
        None
    } else if dirs[0].name == name {
        Some(dirs[0])
    } else {
        find_dir(dirs.drop_first(), name)
    }
}

/// The filesystem path of one file of a show, relative to the content root's
/// parent: a pure join, with no check that the file exists.
pub fn resolve_download_path(show_name: &str, file_name: &str) -> (r: String)
    ensures
        r@ == show_name@ + "/"@ + file_name@,
{
    let mut s = show_name.to_owned();
    s.append("/");
    s.append(file_name);
    s
}

} // verus!
