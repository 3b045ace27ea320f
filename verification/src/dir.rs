//! A show: one directory of audio files, scanned into an ordered list of
//! episodes and rendered as a syndication feed.

use vstd::prelude::*;

verus! {

use vstd::relations::sorted_by;

use rss::extension::itunes::ITunesItemExtensionBuilder;
use rss::{ChannelBuilder, EnclosureBuilder, GuidBuilder, Item, ItemBuilder};

broadcast use {vstd::seq_lib::group_to_multiset_ensures, vstd::multiset::group_multiset_axioms};
use crate::text::{
    lex_le, lex_le_fn, str_lex_le, lemma_lex_le_total, lemma_lex_le_trans,
    lemma_lex_le_total_ordering, last_segment, has_last_segment, path_file_name, stem_of,
    is_audio_name, file_stem, is_audio_file_name, lemma_split_dot_bounds, str_views,
    sort_strings, lemma_map_values_multiset,
};

/// What kind of thing a directory entry is, as the lister saw it.
#[derive(Clone, Copy, PartialEq, Eq, Structural, Debug)]
pub enum EntryKind {
    /// A regular file.
    File,
    /// A directory.
    Dir,
    /// Something else: a symlink, device, socket, ...
    Other,
    /// The entry's type could not be determined.
    Unknown,
}

/// One directory entry, as plain values: its bare name and its kind.
pub struct FsEntry {
    pub name: String,
    pub kind: EntryKind,
}

pub ghost struct FsEntryV {
    pub name: Seq<char>,
    pub kind: EntryKind,
}

impl View for FsEntry {
    type V = FsEntryV;

    open spec fn view(&self) -> FsEntryV {
        FsEntryV { name: self.name@, kind: self.kind }
    }
}

/// Why a scan failed.
#[derive(Clone, Copy, PartialEq, Eq, Structural, Debug)]
pub enum DirectoryError {
    /// A file name without a usable stem: no title can be derived from it.
    InvalidFilename,
}

/// One feed entry, backed by one audio file.  `link` doubles as the episode's
/// unique id; it embeds a placeholder token in place of the scheme and host,
/// which the feed rendering resolves, so the id is stable across scans.
/// `pub_date` is the wall-clock time the record was built, a documented
/// limitation, and the one field no two scans need agree on.
pub struct Episode {
    pub title: String,
    pub file_name: String,
    pub link: String,
    pub pub_date: String,
}

pub ghost struct EpisodeV {
    pub title: Seq<char>,
    pub file_name: Seq<char>,
    pub link: Seq<char>,
    pub pub_date: Seq<char>,
}

impl View for Episode {
    type V = EpisodeV;

    open spec fn view(&self) -> EpisodeV {
        EpisodeV {
            title: self.title@,
            file_name: self.file_name@,
            link: self.link@,
            pub_date: self.pub_date@,
        }
    }
}

impl Clone for Episode {
    fn clone(&self) -> (r: Episode)
        ensures
            r == *self,
    {
        Episode {
            title: self.title.clone(),
            file_name: self.file_name.clone(),
            link: self.link.clone(),
            pub_date: self.pub_date.clone(),
        }
    }
}

/// A show: a directory whose audio files are its episodes.
pub struct Directory {
    pub path: String,
    pub name: String,
    pub link: Option<String>,
    pub items: Vec<Episode>,
}

pub ghost struct DirectoryV {
    pub path: Seq<char>,
    pub name: Seq<char>,
    pub link: Option<Seq<char>>,
    pub items: Seq<EpisodeV>,
}

impl View for Directory {
    type V = DirectoryV;

    open spec fn view(&self) -> DirectoryV {
        DirectoryV {
            path: self.path@,
            name: self.name@,
            link: match self.link {
                Some(l) => Some(l@),
                None => None,
            },
            items: self.items@.map_values(|e: Episode| e@),
        }
    }
}

// ---------------------------------------------------------------------------
// The scan, as a mathematical pipeline
// ---------------------------------------------------------------------------

pub open spec fn entry_views(s: Seq<FsEntry>) -> Seq<FsEntryV> {
    s.map_values(|e: FsEntry| e@)
}

/// An entry becomes an episode exactly when it is a regular file whose
/// extension is the accepted audio extension.
pub open spec fn eligible(e: FsEntryV) -> bool {
    e.kind == EntryKind::File && is_audio_name(e.name)
}

/// The names of the eligible entries, in listing order.
pub open spec fn eligible_names(s: Seq<FsEntryV>) -> Seq<Seq<char>> {
    s.filter(|e: FsEntryV| eligible(e)).map_values(|e: FsEntryV| e.name)
}

/// The file names a scan turns into episodes: the eligible names in
/// ascending lexicographic order.
pub open spec fn scan_names(s: Seq<FsEntryV>) -> Seq<Seq<char>> {
    eligible_names(s).sort_by(lex_le_fn())
}

/// The deferred link of an episode: a placeholder token, substituted with
/// the live scheme and host when the feed is rendered.
pub open spec fn placeholder_link(show: Seq<char>, file: Seq<char>) -> Seq<char> {
    "__PLACEHOLDER__/p/"@ + show + "/"@ + file
}

/// The episode record built for file `file` of show `show`, up to its
/// scan-time timestamp.
pub open spec fn episode_for(ep: EpisodeV, show: Seq<char>, file: Seq<char>) -> bool {
    &&& ep.file_name == file
    &&& ep.title == stem_of(file)
    &&& ep.link == placeholder_link(show, file)
}

/// The whole outcome of a scan: one episode per eligible file, in ascending
/// file-name order.
pub open spec fn items_match_scan(items: Seq<EpisodeV>, show: Seq<char>, entries: Seq<FsEntryV>) -> bool {
    &&& items.len() == scan_names(entries).len()
    &&& forall|k: int|
        0 <= k < items.len() ==> episode_for(#[trigger] items[k], show, scan_names(entries)[k])
}

// ---------------------------------------------------------------------------
// Trusted boundary
// ---------------------------------------------------------------------------

/// Relies on chrono's `Utc::now` and `DateTime::to_rfc2822`: the moment of
/// the call, formatted as an RFC 2822 date.  The clock decides the value, so
/// nothing is assumed of it beyond what holds of every such date: the text
/// is nonempty (it always opens with a weekday).
#[verifier::external_body]
fn now_rfc2822() -> (r: String)
    ensures
        r@.len() > 0,
{
    chrono::offset::Utc::now().to_rfc2822()
}

/// The fields of one rendered feed item, all plain strings; `link` is also
/// the item's guid and its enclosure URL.
pub struct FeedItem {
    pub title: String,
    pub link: String,
    pub pub_date: String,
    pub length: String,
    pub mime_type: String,
    pub duration: String,
}

pub ghost struct FeedItemV {
    pub title: Seq<char>,
    pub link: Seq<char>,
    pub pub_date: Seq<char>,
    pub length: Seq<char>,
    pub mime_type: Seq<char>,
    pub duration: Seq<char>,
}

impl View for FeedItem {
    type V = FeedItemV;

    open spec fn view(&self) -> FeedItemV {
        FeedItemV {
            title: self.title@,
            link: self.link@,
            pub_date: self.pub_date@,
            length: self.length@,
            mime_type: self.mime_type@,
            duration: self.duration@,
        }
    }
}

/// What `rss`'s channel serialisation produces for the given channel title,
/// channel link and item fields: a fixed function of these alone.
pub uninterp spec fn rss_xml_of(title: Seq<char>, link: Seq<char>, items: Seq<FeedItemV>) -> Seq<char>;

/// Relies on `rss`: `ItemBuilder`, `GuidBuilder`, `EnclosureBuilder`,
/// `ITunesItemExtensionBuilder`, `ChannelBuilder` and `Channel`'s `Display`.
/// The document is a function of the given strings alone; each item's guid
/// and enclosure URL are its `link` field, its description is empty.
#[verifier::external_body]
fn rss_channel_xml(title: &String, link: &String, items: &Vec<FeedItem>) -> (r: String)
    ensures
        r@ == rss_xml_of(title@, link@, items@.map_values(|f: FeedItem| f@)),
{
    let rss_items: Vec<Item> = items.iter().map(|f| ItemBuilder::default()
        .title(f.title.clone()).link(f.link.clone())
        .guid(GuidBuilder::default().value(f.link.clone()).build())
        .pub_date(f.pub_date.clone())
        .enclosure(EnclosureBuilder::default().url(f.link.clone())
            .length(f.length.clone()).mime_type(f.mime_type.clone()).build())
        .itunes_ext(ITunesItemExtensionBuilder::default()
            .duration(f.duration.clone()).build())
        .build()).collect();
    ChannelBuilder::default().title(title.clone()).link(link.clone())
        .items(rss_items).build().to_string()
}

// ---------------------------------------------------------------------------
// The show itself
// ---------------------------------------------------------------------------

impl Directory {
    /// The catalogue-relative link of a show.
    pub open spec fn spec_show_link(name: Seq<char>) -> Seq<char> {
        "/p/"@ + name
    }

    /// A well-formed show advertises its own catalogue-relative link.
    pub open spec fn wf(&self) -> bool {
        self@.link == Some(Directory::spec_show_link(self@.name))
    }

    /// A show rooted at `path`, named after the path's final segment, with
    /// no episodes yet.  The path must not end in a separator: its final
    /// segment is taken as it stands.
    pub fn new(path: &str) -> (r: Result<Directory, DirectoryError>)
        requires
            has_last_segment(path@),
        ensures
            r matches Ok(d) && d@.path == path@ && d@.name == last_segment(path@)
                && d@.items.len() == 0 && d.wf(),
    {
        let name = path_file_name(path);
        let mut link = ("/p/").to_owned();
        link.append(name.as_str());
        let d = Directory { path: path.to_owned(), name, link: Some(link), items: Vec::new() };
        proof {
            assert(d@.items =~= Seq::<EpisodeV>::empty());
        }
        Ok(d)
    }

    /// The episode record for one file of this show: title from the stem,
    /// deferred link, scan-time timestamp.  Fails exactly when no title can
    /// be derived, that is, when the name is empty.
    pub fn to_rss_item(&self, file_name: &str) -> (r: Result<Episode, DirectoryError>)
        ensures
            file_name@.len() == 0 ==> r matches Err(DirectoryError::InvalidFilename),
            file_name@.len() > 0 ==> (r matches Ok(ep) && episode_for(ep@, self@.name, file_name@)),
    {
        proof {
            lemma_split_dot_bounds(file_name@);
        }
        let title = file_stem(file_name);
        if title.as_str().unicode_len() == 0 {
            return Err(DirectoryError::InvalidFilename);
        }
        let mut link = ("__PLACEHOLDER__/p/").to_owned();
        link.append(self.name.as_str());
        link.append("/");
        link.append(file_name);
        let pub_date = now_rfc2822();
        Ok(Episode { title, file_name: file_name.to_owned(), link, pub_date })
    }

    /// Appends one episode.
    pub fn add_item(&mut self, item: &Episode)
        ensures
            final(self)@.items == old(self)@.items.push(item@),
            final(self)@.path == old(self)@.path,
            final(self)@.name == old(self)@.name,
            final(self)@.link == old(self)@.link,
    {
        let ghost items0 = self@.items;
        self.items.push(item.clone());
        proof {
            assert(self@.items =~= items0.push(item@));
        }
    }

    pub fn num_of_episodes(&self) -> (r: usize)
        ensures
            r == self@.items.len(),
    {
        self.items.len()
    }

    /// Scans a directory listing: keeps the regular files with the audio
    /// extension, sorts their names ascending, and builds one episode per
    /// name in that order.  Run once, on a freshly constructed show.
    pub fn analyze(&mut self, entries: &Vec<FsEntry>) -> (r: Result<(), DirectoryError>)
        requires
            old(self)@.items.len() == 0,
        ensures
            r matches Ok(v) && v == (),
            final(self)@.path == old(self)@.path,
            final(self)@.name == old(self)@.name,
            final(self)@.link == old(self)@.link,
            items_match_scan(final(self)@.items, old(self)@.name, entry_views(entries@)),
    {
        let ghost evs = entry_views(entries@);
        let mut valid: Vec<String> = Vec::new();
        let mut idx: usize = 0;
        while idx < entries.len()
            invariant
                idx <= entries@.len(),
                evs == entry_views(entries@),
                str_views(valid@) == eligible_names(evs.take(idx as int)),
            decreases entries@.len() - idx,
        {
            let e = &entries[idx];
            let elig = e.kind == EntryKind::File && is_audio_file_name(e.name.as_str());
            let ghost valid0 = valid@;
            proof {
                reveal(Seq::filter);
                let t = evs.take(idx + 1);
                assert(t.drop_last() =~= evs.take(idx as int));
                assert(t.last() == entries@[idx as int]@);
                assert(eligible(t.last()) == elig);
                let pred = |x: FsEntryV| eligible(x);
                let namef = |x: FsEntryV| x.name;
                if elig {
                    assert(t.filter(pred) == t.drop_last().filter(pred).push(t.last()));
                    assert(t.filter(pred).map_values(namef) =~= t.drop_last().filter(
                        pred,
                    ).map_values(namef).push(t.last().name));
                } else {
                    assert(t.filter(pred) == t.drop_last().filter(pred));
                }
            }
            if elig {
                valid.push(e.name.clone());
                proof {
                    assert(str_views(valid@) =~= str_views(valid0).push(entries@[idx as int]@.name));
                }
            }
            idx = idx + 1;
        }
        proof {
            assert(evs.take(entries@.len() as int) =~= evs);
        }
        let valid = sort_strings(valid);
        let ghost ns = str_views(valid@);
        proof {
            lemma_lex_le_total_ordering();
            eligible_names(evs).lemma_sort_by_ensures(lex_le_fn());
            vstd::seq_lib::lemma_sorted_unique(ns, scan_names(evs), lex_le_fn());
            assert(ns == scan_names(evs));
            assert forall|k: int| 0 <= k < ns.len() implies is_audio_name(ns[k]) by {
                assert(ns.contains(ns[k]));
                assert(ns.to_multiset().count(ns[k]) > 0);
                assert(eligible_names(evs).to_multiset().count(ns[k]) > 0);
                assert(eligible_names(evs).contains(ns[k]));
                let j = choose|j: int|
                    0 <= j < eligible_names(evs).len() && eligible_names(evs)[j] == ns[k];
                let pred = |x: FsEntryV| eligible(x);
                evs.lemma_filter_pred(pred, j);
            };
            assert forall|k: int| 0 <= k < ns.len() implies stem_of(ns[k]).len() > 0 by {
                lemma_split_dot_bounds(ns[k]);
            };
        }
        let mut i: usize = 0;
        while i < valid.len()
            invariant
                i <= valid@.len(),
                ns == str_views(valid@),
                ns == scan_names(evs),
                forall|k: int| 0 <= k < ns.len() ==> stem_of(#[trigger] ns[k]).len() > 0,
                self@.path == old(self)@.path,
                self@.name == old(self)@.name,
                self@.link == old(self)@.link,
                self@.items.len() == i,
                forall|k: int|
                    0 <= k < i ==> episode_for(#[trigger] self@.items[k], old(self)@.name, ns[k]),
            decreases valid@.len() - i,
        {
            let item = match self.to_rss_item(valid[i].as_str()) {
                Ok(it) => it,
                Err(e) => {
                    proof {
                        assert(valid@[i as int]@ == ns[i as int]);
                        assert(stem_of(ns[i as int]).len() > 0);
                        assert(ns[i as int].len() > 0);
                    }
                    return Err(e);
                },
            };
            self.add_item(&item);
            i = i + 1;
        }
        Ok(())
    }

    /// The absolute channel link of this show under the given scheme and
    /// host.
    pub open spec fn spec_rss_link(scheme: Seq<char>, host: Seq<char>, show: Seq<char>) -> Seq<char> {
        scheme + "://"@ + host + "/p/"@ + show
    }

    pub fn get_rss_link(&self, scheme: &str, host: &str) -> (r: String)
        ensures
            r@ == Directory::spec_rss_link(scheme@, host@, self@.name),
    {
        let mut s = scheme.to_owned();
        s.append("://");
        s.append(host);
        s.append("/p/");
        s.append(self.name.as_str());
        s
    }
}

/// The absolute download link of one file of a show.
pub open spec fn resolved_link(scheme: Seq<char>, host: Seq<char>, show: Seq<char>, file: Seq<char>) -> Seq<char> {
    scheme + "://"@ + host + "/p/"@ + show + "/"@ + file
}

/// The feed item fields rendered for each episode: resolved link, fixed
/// placeholder enclosure length, MIME type and duration.
pub open spec fn feed_items_of(items: Seq<EpisodeV>, scheme: Seq<char>, host: Seq<char>, show: Seq<char>) -> Seq<FeedItemV> {
    items.map_values(
        |ep: EpisodeV|
            FeedItemV {
                title: ep.title,
                link: resolved_link(scheme, host, show, ep.file_name),
                pub_date: ep.pub_date,
                length: "123"@,
                mime_type: "audio/mpeg"@,
                duration: "1234"@,
            },
    )
}

impl Directory {
    /// Renders this show's feed for the given scheme and host: the channel
    /// carries the show's name and absolute link, and one item per episode,
    /// in episode order, each linking to its resolved download URL.
    pub fn to_rss_xml(&self, scheme: &str, host: &str) -> (r: Result<String, DirectoryError>)
        ensures
            r matches Ok(x) && x@ == rss_xml_of(
                self@.name,
                Directory::spec_rss_link(scheme@, host@, self@.name),
                feed_items_of(self@.items, scheme@, host@, self@.name),
            ),
    {
        let mut fs: Vec<FeedItem> = Vec::new();
        let ghost target = feed_items_of(self@.items, scheme@, host@, self@.name);
        let mut i: usize = 0;
        while i < self.items.len()
            invariant
                i <= self@.items.len(),
                target == feed_items_of(self@.items, scheme@, host@, self@.name),
                fs@.map_values(|f: FeedItem| f@) =~= target.take(i as int),
            decreases self@.items.len() - i,
        {
            let ep = &self.items[i];
            let mut link = scheme.to_owned();
            link.append("://");
            link.append(host);
            link.append("/p/");
            link.append(self.name.as_str());
            link.append("/");
            link.append(ep.file_name.as_str());
            let f = FeedItem {
                title: ep.title.clone(),
                link,
                pub_date: ep.pub_date.clone(),
                length: ("123").to_owned(),
                mime_type: ("audio/mpeg").to_owned(),
                duration: ("1234").to_owned(),
            };
            let ghost fs0 = fs@;
            fs.push(f);
            proof {
                assert(fs@.map_values(|f: FeedItem| f@) =~= fs0.map_values(|f: FeedItem| f@).push(
                    f@,
                ));
                assert(self.items@[i as int]@ == self@.items[i as int]);
                assert(f@ == target[i as int]);
                assert(fs@.map_values(|f: FeedItem| f@) =~= target.take(i + 1));
            }
            i = i + 1;
        }
        proof {
            assert(target.take(self@.items.len() as int) =~= target);
        }
        let link = self.get_rss_link(scheme, host);
        let xml = rss_channel_xml(&self.name, &link, &fs);
        Ok(xml)
    }
}

/// The directory views behind a vector of shows.
pub open spec fn dir_views(s: Seq<Directory>) -> Seq<DirectoryV> {
    s.map_values(|d: Directory| d@)
}

/// The names of a sequence of shows, in order.
pub open spec fn dir_names(s: Seq<DirectoryV>) -> Seq<Seq<char>> {
    s.map_values(|d: DirectoryV| d.name)
}

/// Sorts shows into ascending name order by insertion, keeping exactly the
/// shows given.
pub fn sort_directories(v: Vec<Directory>) -> (r: Vec<Directory>)
    ensures
        sorted_by(dir_names(dir_views(r@)), lex_le_fn()),
        dir_views(r@).to_multiset() == dir_views(v@).to_multiset(),
{
    let ghost vg = v@;
    let mut src = v;
    let mut out: Vec<Directory> = Vec::new();
    while src.len() > 0
        invariant
            sorted_by(dir_names(dir_views(out@)), lex_le_fn()),
            dir_views(out@).to_multiset().add(dir_views(src@).to_multiset()) == dir_views(
                vg,
            ).to_multiset(),
        decreases src@.len(),
    {
        let ghost src0 = src@;
        let ghost out0 = out@;
        let x = src.remove(0);
        proof {
            assert(dir_views(src@) =~= dir_views(src0).remove(0));
            assert(dir_views(src0)[0] == x@);
        }
        let mut j: usize = 0;
        while j < out.len() && str_lex_le(out[j].name.as_str(), x.name.as_str())
            invariant
                j <= out@.len(),
                out@ == out0,
                forall|k: int| 0 <= k < j ==> lex_le(dir_names(dir_views(out@))[k], x@.name),
            decreases out@.len() - j,
        {
            j = j + 1;
        }
        proof {
            let names = dir_names(dir_views(out@));
            let leq = lex_le_fn();
            assert forall|k: int| j <= k < names.len() implies lex_le(x@.name, names[k]) by {
                assert(names[j as int] == out@[j as int]@.name);
                lemma_lex_le_total(names[j as int], x@.name);
                if k > j {
                    assert(leq(names[j as int], names[k]));
                    lemma_lex_le_trans(x@.name, names[j as int], names[k]);
                }
            }
        }
        out.insert(j, x);
        proof {
            let w = dir_names(dir_views(out0));
            let u = dir_names(dir_views(out@));
            let dv0 = dir_views(src0);
            let dv1 = dir_views(src@);
            assert(dir_views(out@) =~= dir_views(out0).insert(j as int, x@));
            assert(u =~= w.insert(j as int, x@.name));
            assert(dv0[0] == x@);
            assert(dv0.contains(x@));
            assert(dir_views(out0).insert(j as int, x@).to_multiset() == dir_views(
                out0,
            ).to_multiset().insert(x@));
            assert(dv0.remove(0).to_multiset() == dv0.to_multiset().remove(dv0[0]));
            assert(dir_views(out@).to_multiset().add(dv1.to_multiset()) =~= dir_views(
                vg,
            ).to_multiset());
            let leq = lex_le_fn();
            assert forall|m: int, n: int| 0 <= m < n < w.len() implies lex_le(w[m], w[n]) by {
                assert(leq(w[m], w[n]));
            }
            assert forall|p: int, q: int| 0 <= p < q < u.len() implies lex_le(u[p], u[q]) by {
                assert(forall|k: int| 0 <= k < j ==> u[k] == w[k]);
                assert(u[j as int] == x@.name);
                assert(forall|k: int| j < k < u.len() ==> u[k] == w[k - 1]);
                if p < j && q > j {
                    lemma_lex_le_trans(u[p], x@.name, u[q]);
                }
            }
            assert(sorted_by(u, lex_le_fn())) by {
                assert forall|m: int, n: int| 0 <= m < n < u.len() implies leq(u[m], u[n]) by {
                    assert(lex_le(u[m], u[n]));
                }
            }
        }
    }
    proof {
        let dv = dir_views(src@);
        assert(dv =~= Seq::<DirectoryV>::empty());
        assert forall|y: DirectoryV| dv.to_multiset().count(y) == 0 by {
            if dv.to_multiset().count(y) > 0 {
                assert(dv.contains(y));
            }
        }
        assert(dir_views(out@).to_multiset().add(dv.to_multiset()) =~= dir_views(
            out@,
        ).to_multiset());
    }
    out
}

impl Clone for Directory {
    fn clone(&self) -> (r: Directory)
        ensures
            r@ == self@,
    {
        let mut items: Vec<Episode> = Vec::new();
        let mut i: usize = 0;
        while i < self.items.len()
            invariant
                i <= self.items@.len(),
                items@ =~= self.items@.take(i as int),
            decreases self.items@.len() - i,
        {
            items.push(self.items[i].clone());
            proof {
                assert(items@ =~= self.items@.take(i + 1));
            }
            i = i + 1;
        }
        proof {
            assert(self.items@.take(self.items@.len() as int) =~= self.items@);
        }
        let r = Directory {
            path: self.path.clone(),
            name: self.name.clone(),
            link: match &self.link {
                Some(l) => Some(l.clone()),
                None => None,
            },
            items,
        };
        proof {
            assert(r@.items =~= self@.items);
        }
        r
    }
}


// ---------------------------------------------------------------------------
// What holds of every scan
// ---------------------------------------------------------------------------

/// For a listing of nothing but eligible audio files, a scan yields exactly
/// one episode per file, each titled with its file's stem.
pub proof fn lemma_scan_all_eligible(items: Seq<EpisodeV>, show: Seq<char>, entries: Seq<FsEntryV>)
    requires
        items_match_scan(items, show, entries),
        forall|k: int| 0 <= k < entries.len() ==> eligible(#[trigger] entries[k]),
    ensures
        items.len() == entries.len(),
        forall|k: int|
            0 <= k < items.len() ==> (#[trigger] items[k]).title == stem_of(items[k].file_name),
{
    lemma_lex_le_total_ordering();
    eligible_names(entries).lemma_sort_by_ensures(lex_le_fn());
    assert(scan_names(entries).to_multiset().len() == scan_names(entries).len());
    assert(eligible_names(entries).to_multiset().len() == eligible_names(entries).len());
    crate::text::lemma_filter_all(entries, |e: FsEntryV| eligible(e));
}

/// Shuffling the listing never changes the scan: listings with the same
/// entries yield the same title, file-name and id sequences, in the same
/// order.
pub proof fn lemma_scan_order_independent(
    items1: Seq<EpisodeV>,
    e1: Seq<FsEntryV>,
    items2: Seq<EpisodeV>,
    e2: Seq<FsEntryV>,
    show: Seq<char>,
)
    requires
        items_match_scan(items1, show, e1),
        items_match_scan(items2, show, e2),
        e1.to_multiset() == e2.to_multiset(),
    ensures
        items1.len() == items2.len(),
        forall|k: int|
            0 <= k < items1.len() ==> (#[trigger] items1[k]).title == items2[k].title
                && items1[k].file_name == items2[k].file_name && items1[k].link == items2[k].link,
{
    let pred = |e: FsEntryV| eligible(e);
    let namef = |e: FsEntryV| e.name;
    crate::text::lemma_filter_multiset(e1, e2, pred);
    lemma_map_values_multiset(e1.filter(pred), e2.filter(pred), namef);
    lemma_lex_le_total_ordering();
    eligible_names(e1).lemma_sort_by_ensures(lex_le_fn());
    eligible_names(e2).lemma_sort_by_ensures(lex_le_fn());
    vstd::seq_lib::lemma_sorted_unique(scan_names(e1), scan_names(e2), lex_le_fn());
    assert(scan_names(e1) == scan_names(e2));
}

/// Scanning an unchanged listing again reproduces the same title, file-name
/// and id sequences; only the scan-time timestamps may differ.
pub proof fn lemma_scan_idempotent(
    items1: Seq<EpisodeV>,
    items2: Seq<EpisodeV>,
    show: Seq<char>,
    entries: Seq<FsEntryV>,
)
    requires
        items_match_scan(items1, show, entries),
        items_match_scan(items2, show, entries),
    ensures
        items1.len() == items2.len(),
        forall|k: int|
            0 <= k < items1.len() ==> (#[trigger] items1[k]).title == items2[k].title
                && items1[k].file_name == items2[k].file_name && items1[k].link == items2[k].link,
{
}

/// Only the audio files count: a scan yields exactly one episode per
/// eligible entry, however many other entries the listing holds.
pub proof fn lemma_scan_count(items: Seq<EpisodeV>, show: Seq<char>, entries: Seq<FsEntryV>)
    requires
        items_match_scan(items, show, entries),
    ensures
        items.len() == entries.filter(|e: FsEntryV| eligible(e)).len(),
{
    lemma_lex_le_total_ordering();
    eligible_names(entries).lemma_sort_by_ensures(lex_le_fn());
    assert(scan_names(entries).to_multiset().len() == scan_names(entries).len());
    assert(eligible_names(entries).to_multiset().len() == eligible_names(entries).len());
}

} // verus!
