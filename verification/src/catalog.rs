//! The known junk locations. The table is safety-critical data: no entry may
//! reach user documents or credentials, nor stand for a whole profile.
use crate::text;
use vstd::prelude::*;

verus! {

/// Whose locations the table lists.
#[derive(Clone, Copy, Debug, PartialEq, Eq, Structural)]
pub enum HostOs {
    Windows,
    MacOs,
}

/// A known location below an environment root.
#[derive(Clone, Debug)]
pub struct Pattern {
    /// Category id that the location feeds.
    pub category: &'static str,
    /// Environment root, e.g. `%LOCALAPPDATA%`.
    pub env: &'static str,
    /// Path segments below the root; `*` matches any one segment.
    pub segments: Vec<&'static str>,
}

/// What a [`Pattern`] says.
pub ghost struct Entry {
    pub category: Seq<char>,
    pub env: Seq<char>,
    pub segments: Seq<Seq<char>>,
}

/// One line of the table.
pub open spec fn entry(category: Seq<char>, env: Seq<char>, segments: Seq<Seq<char>>) -> Entry {
    Entry { category, env, segments }
}

impl Pattern {
    /// What the pattern says.
    pub open spec fn says(&self) -> Entry {
        entry(self.category@, self.env@, text::texts(self.segments@))
    }
}

/// What a list of patterns says.
pub open spec fn says_all(p: Seq<Pattern>) -> Seq<Entry> {
    p.map_values(|x: Pattern| x.says())
}

/// The Windows locations.
pub open spec fn windows_table() -> Seq<Entry> {
    seq![
        entry("downloads"@, "%USERPROFILE%"@, seq!["Downloads"@]),
        entry("temp_caches"@, "%LOCALAPPDATA%"@, seq!["Temp"@]),
        entry("temp_caches"@, "%LOCALAPPDATA%"@, seq!["Microsoft"@, "Windows"@, "INetCache"@]),
        entry("temp_caches"@, "%LOCALAPPDATA%"@, seq!["CrashDumps"@]),
        entry("temp_caches"@, "%LOCALAPPDATA%"@, seq!["D3DSCache"@]),
        entry("temp_caches"@, "%LOCALAPPDATA%"@, seq!["Microsoft"@, "Windows"@, "WER"@]),
        entry("browser_caches"@, "%LOCALAPPDATA%"@, seq!["Google"@, "Chrome"@, "*"@, "Cache"@]),
        entry("browser_caches"@, "%LOCALAPPDATA%"@, seq!["Google"@, "Chrome"@, "*"@, "Code Cache"@]),
        entry("browser_caches"@, "%LOCALAPPDATA%"@, seq!["Google"@, "Chrome"@, "*"@, "GPUCache"@]),
        entry("browser_caches"@, "%LOCALAPPDATA%"@, seq!["Microsoft"@, "Edge"@, "*"@, "Cache"@]),
        entry("browser_caches"@, "%LOCALAPPDATA%"@, seq!["Microsoft"@, "Edge"@, "*"@, "Code Cache"@]),
        entry("browser_caches"@, "%LOCALAPPDATA%"@, seq!["Microsoft"@, "Edge"@, "*"@, "GPUCache"@]),
        entry("browser_caches"@, "%LOCALAPPDATA%"@, seq!["BraveSoftware"@, "Brave-Browser"@, "*"@, "Cache"@]),
        entry("browser_caches"@, "%LOCALAPPDATA%"@, seq!["BraveSoftware"@, "Brave-Browser"@, "*"@, "Code Cache"@]),
        entry("browser_caches"@, "%LOCALAPPDATA%"@, seq!["BraveSoftware"@, "Brave-Browser"@, "*"@, "GPUCache"@]),
        entry("browser_caches"@, "%LOCALAPPDATA%"@, seq!["Mozilla"@, "Firefox"@, "Profiles"@, "*"@, "cache2"@]),
        entry("dev_caches"@, "%USERPROFILE%"@, seq![".nuget"@, "packages"@]),
        entry("dev_caches"@, "%USERPROFILE%"@, seq![".cargo"@, "registry"@]),
        entry("dev_caches"@, "%USERPROFILE%"@, seq![".gradle"@, "caches"@]),
        entry("dev_caches"@, "%LOCALAPPDATA%"@, seq!["npm-cache"@]),
        entry("dev_caches"@, "%LOCALAPPDATA%"@, seq!["pip"@, "Cache"@]),
        entry("dev_caches"@, "%LOCALAPPDATA%"@, seq!["pnpm"@, "store"@]),
        entry("dev_caches"@, "%LOCALAPPDATA%"@, seq!["Yarn"@, "Cache"@]),
        entry("android_emulators"@, "%USERPROFILE%"@, seq![".android"@, "avd"@]),
    ]
}

/// The macOS locations.
pub open spec fn mac_table() -> Seq<Entry> {
    seq![
        entry("downloads"@, "%HOME%"@, seq!["Downloads"@]),
        entry("temp_caches"@, "%HOME%"@, seq!["Library"@, "Caches"@]),
        entry("temp_caches"@, "%HOME%"@, seq!["Library"@, "Logs"@]),
        entry("ios_simulators"@, "%HOME%"@, seq!["Developer"@, "CoreSimulator"@]),
        entry("xcode_derived"@, "%HOME%"@, seq!["Library"@, "Developer"@, "Xcode"@, "DerivedData"@]),
        entry("dev_caches"@, "%HOME%"@, seq![".cargo"@, "registry"@]),
        entry("dev_caches"@, "%HOME%"@, seq![".gradle"@, "caches"@]),
        entry("dev_caches"@, "%HOME%"@, seq![".npm"@]),
        entry("android_emulators"@, "%HOME%"@, seq![".android"@, "avd"@]),
    ]
}

/// The locations on a host.
pub open spec fn table(host: HostOs) -> Seq<Entry> {
    match host {
        HostOs::Windows => windows_table(),
        HostOs::MacOs => mac_table(),
    }
}

fn seg1(a: &'static str) -> (r: Vec<&'static str>)
    ensures
        text::texts(r@) == seq![a@],
{
    let r: Vec<&'static str> = vec![a];
    assert(text::texts(r@) =~= seq![a@]);
    r
}

fn seg2(a: &'static str, b: &'static str) -> (r: Vec<&'static str>)
    ensures
        text::texts(r@) == seq![a@, b@],
{
    let r: Vec<&'static str> = vec![a, b];
    assert(text::texts(r@) =~= seq![a@, b@]);
    r
}

fn seg3(a: &'static str, b: &'static str, c: &'static str) -> (r: Vec<&'static str>)
    ensures
        text::texts(r@) == seq![a@, b@, c@],
{
    let r: Vec<&'static str> = vec![a, b, c];
    assert(text::texts(r@) =~= seq![a@, b@, c@]);
    r
}

fn seg4(a: &'static str, b: &'static str, c: &'static str, d: &'static str) -> (r: Vec<&'static str>)
    ensures
        text::texts(r@) == seq![a@, b@, c@, d@],
{
    let r: Vec<&'static str> = vec![a, b, c, d];
    assert(text::texts(r@) =~= seq![a@, b@, c@, d@]);
    r
}

fn seg5(a: &'static str, b: &'static str, c: &'static str, d: &'static str, e: &'static str) -> (r: Vec<&'static str>)
    ensures
        text::texts(r@) == seq![a@, b@, c@, d@, e@],
{
    let r: Vec<&'static str> = vec![a, b, c, d, e];
    assert(text::texts(r@) =~= seq![a@, b@, c@, d@, e@]);
    r
}

fn pattern(
    category: &'static str,
    env: &'static str,
    segments: Vec<&'static str>,
) -> (r: Pattern)
    ensures
        r.says() == entry(category@, env@, text::texts(segments@)),
{
    Pattern { category, env, segments }
}

/// The full pattern table of a host.
pub fn patterns(host: HostOs) -> (p: Vec<Pattern>)
    ensures
        says_all(p@) == table(host),
{
    let mut p: Vec<Pattern> = Vec::new();
    match host {
        HostOs::MacOs => {
            p.push(pattern("downloads", "%HOME%", seg1("Downloads")));
            p.push(pattern("temp_caches", "%HOME%", seg2("Library", "Caches")));
            p.push(pattern("temp_caches", "%HOME%", seg2("Library", "Logs")));
            p.push(pattern("ios_simulators", "%HOME%", seg2("Developer", "CoreSimulator")));
            p.push(pattern("xcode_derived", "%HOME%", seg4("Library", "Developer", "Xcode", "DerivedData")));
            p.push(pattern("dev_caches", "%HOME%", seg2(".cargo", "registry")));
            p.push(pattern("dev_caches", "%HOME%", seg2(".gradle", "caches")));
            p.push(pattern("dev_caches", "%HOME%", seg1(".npm")));
            p.push(pattern("android_emulators", "%HOME%", seg2(".android", "avd")));
            assert(says_all(p@) =~= mac_table());
        },
        HostOs::Windows => {
            p.push(pattern("downloads", "%USERPROFILE%", seg1("Downloads")));
            p.push(pattern("temp_caches", "%LOCALAPPDATA%", seg1("Temp")));
            p.push(pattern("temp_caches", "%LOCALAPPDATA%", seg3("Microsoft", "Windows", "INetCache")));
            p.push(pattern("temp_caches", "%LOCALAPPDATA%", seg1("CrashDumps")));
            p.push(pattern("temp_caches", "%LOCALAPPDATA%", seg1("D3DSCache")));
            p.push(pattern("temp_caches", "%LOCALAPPDATA%", seg3("Microsoft", "Windows", "WER")));
            p.push(pattern("browser_caches", "%LOCALAPPDATA%", seg4("Google", "Chrome", "*", "Cache")));
            p.push(pattern("browser_caches", "%LOCALAPPDATA%", seg4("Google", "Chrome", "*", "Code Cache")));
            p.push(pattern("browser_caches", "%LOCALAPPDATA%", seg4("Google", "Chrome", "*", "GPUCache")));
            p.push(pattern("browser_caches", "%LOCALAPPDATA%", seg4("Microsoft", "Edge", "*", "Cache")));
            p.push(pattern("browser_caches", "%LOCALAPPDATA%", seg4("Microsoft", "Edge", "*", "Code Cache")));
            p.push(pattern("browser_caches", "%LOCALAPPDATA%", seg4("Microsoft", "Edge", "*", "GPUCache")));
            p.push(pattern("browser_caches", "%LOCALAPPDATA%", seg4("BraveSoftware", "Brave-Browser", "*", "Cache")));
            p.push(pattern("browser_caches", "%LOCALAPPDATA%", seg4("BraveSoftware", "Brave-Browser", "*", "Code Cache")));
            p.push(pattern("browser_caches", "%LOCALAPPDATA%", seg4("BraveSoftware", "Brave-Browser", "*", "GPUCache")));
            p.push(pattern("browser_caches", "%LOCALAPPDATA%", seg5("Mozilla", "Firefox", "Profiles", "*", "cache2")));
            p.push(pattern("dev_caches", "%USERPROFILE%", seg2(".nuget", "packages")));
            p.push(pattern("dev_caches", "%USERPROFILE%", seg2(".cargo", "registry")));
            p.push(pattern("dev_caches", "%USERPROFILE%", seg2(".gradle", "caches")));
            p.push(pattern("dev_caches", "%LOCALAPPDATA%", seg1("npm-cache")));
            p.push(pattern("dev_caches", "%LOCALAPPDATA%", seg2("pip", "Cache")));
            p.push(pattern("dev_caches", "%LOCALAPPDATA%", seg2("pnpm", "store")));
            p.push(pattern("dev_caches", "%LOCALAPPDATA%", seg2("Yarn", "Cache")));
            p.push(pattern("android_emulators", "%USERPROFILE%", seg2(".android", "avd")));
            assert(says_all(p@) =~= windows_table());
        },
    }
    p
}

/// The roots below which virtual disks count whatever their size.
pub open spec fn vm_table() -> Seq<Entry> {
    seq![
        entry("vm_disks"@, "%LOCALAPPDATA%"@, seq!["Packages"@, "*"@, "LocalState"@]),
        entry("vm_disks"@, "%LOCALAPPDATA%"@, seq!["Docker"@]),
        entry("vm_disks"@, "%USERPROFILE%"@, seq!["VirtualBox VMs"@]),
    ]
}

/// The roots below which `.vhdx` and `.vmdk` files count whatever their size.
pub fn vm_disk_roots() -> (p: Vec<Pattern>)
    ensures
        says_all(p@) == vm_table(),
{
    let mut p: Vec<Pattern> = Vec::new();
    p.push(pattern("vm_disks", "%LOCALAPPDATA%", seg3("Packages", "*", "LocalState")));
    p.push(pattern("vm_disks", "%LOCALAPPDATA%", seg1("Docker")));
    p.push(pattern("vm_disks", "%USERPROFILE%", seg1("VirtualBox VMs")));
    assert(says_all(p@) =~= vm_table());
    p
}

/// The variables below which locations lie.
pub open spec fn is_env(key: Seq<char>) -> bool {
    ||| key == "%USERPROFILE%"@
    ||| key == "%LOCALAPPDATA%"@
    ||| key == "%HOME%"@
}

/// Every location lies below one of the variables.
pub proof fn every_root_is_a_variable(host: HostOs)
    ensures
        forall|i: int| 0 <= i < table(host).len() ==> is_env((#[trigger] table(host)[i]).env),
        forall|i: int| 0 <= i < vm_table().len() ==> is_env((#[trigger] vm_table()[i]).env),
{
    let d = vm_table();
    assert(is_env(d[0].env) && is_env(d[1].env) && is_env(d[2].env));
    match host {
        HostOs::Windows => {
            let t = windows_table();
            assert(is_env(t[0].env));
            assert(is_env(t[1].env));
            assert(is_env(t[2].env));
            assert(is_env(t[3].env));
            assert(is_env(t[4].env));
            assert(is_env(t[5].env));
            assert(is_env(t[6].env));
            assert(is_env(t[7].env));
            assert(is_env(t[8].env));
            assert(is_env(t[9].env));
            assert(is_env(t[10].env));
            assert(is_env(t[11].env));
            assert(is_env(t[12].env));
            assert(is_env(t[13].env));
            assert(is_env(t[14].env));
            assert(is_env(t[15].env));
            assert(is_env(t[16].env));
            assert(is_env(t[17].env));
            assert(is_env(t[18].env));
            assert(is_env(t[19].env));
            assert(is_env(t[20].env));
            assert(is_env(t[21].env));
            assert(is_env(t[22].env));
            assert(is_env(t[23].env));
        },
        HostOs::MacOs => {
            let t = mac_table();
            assert(is_env(t[0].env));
            assert(is_env(t[1].env));
            assert(is_env(t[2].env));
            assert(is_env(t[3].env));
            assert(is_env(t[4].env));
            assert(is_env(t[5].env));
            assert(is_env(t[6].env));
            assert(is_env(t[7].env));
            assert(is_env(t[8].env));
        },
    }
}

// ---------------------------------------------------------------------------
// What every entry keeps
// ---------------------------------------------------------------------------

/// A name (in lower case) of a folder with user content or credentials.
pub open spec fn is_protected_name(s: Seq<char>) -> bool {
    ||| s == "documents"@
    ||| s == "desktop"@
    ||| s == "pictures"@
    ||| s == "photos"@
    ||| s == "music"@
    ||| s == "movies"@
    ||| s == "videos"@
    ||| s == "onedrive"@
    ||| s == "icloud~"@
    ||| s == "dropbox"@
    ||| s == ".ssh"@
    ||| s == ".gnupg"@
    ||| s == "keychains"@
    ||| s == "mail"@
    ||| s == "saved games"@
    ||| s == "favorites"@
    ||| s == "contacts"@
    ||| s == "links"@
    ||| s == "searches"@
}

/// A single path component: not empty, no separator, no parent reference.
pub open spec fn is_component(s: Seq<char>) -> bool {
    &&& s.len() > 0
    &&& !s.contains('/')
    &&& !s.contains('\\')
    &&& !text::has_sub(s, seq!['.', '.'])
}

/// Length, second and third character of the protected names.
spec fn protected_shape(n: nat, b: char, c: char) -> bool {
    ||| n == 9 && b == 'o' && c == 'c'
    ||| n == 7 && b == 'e' && c == 's'
    ||| n == 8 && b == 'i' && c == 'c'
    ||| n == 6 && b == 'h' && c == 'o'
    ||| n == 5 && b == 'u' && c == 's'
    ||| n == 6 && b == 'o' && c == 'v'
    ||| n == 6 && b == 'i' && c == 'd'
    ||| n == 8 && b == 'n' && c == 'e'
    ||| n == 7 && b == 'c' && c == 'l'
    ||| n == 7 && b == 'r' && c == 'o'
    ||| n == 4 && b == 's' && c == 's'
    ||| n == 6 && b == 'g' && c == 'n'
    ||| n == 9 && b == 'e' && c == 'y'
    ||| n == 4 && b == 'a' && c == 'i'
    ||| n == 11 && b == 'a' && c == 'v'
    ||| n == 9 && b == 'a' && c == 'v'
    ||| n == 8 && b == 'o' && c == 'n'
    ||| n == 5 && b == 'i' && c == 'n'
    ||| n == 8 && b == 'e' && c == 'a'
}

/// A segment whose length, second and third character are not those of a
/// protected name is none.
proof fn unprotected(seg: Seq<char>)
    requires
        seg.len() < 4 || !protected_shape(
            seg.len(),
            text::lower_char(seg[1]),
            text::lower_char(seg[2]),
        ),
    ensures
        !is_protected_name(text::lower(seg)),
{
    let s = text::lower(seg);
    assert(s.len() == seg.len());
    if is_protected_name(s) {
        reveal_strlit("documents");
        reveal_strlit("desktop");
        reveal_strlit("pictures");
        reveal_strlit("photos");
        reveal_strlit("music");
        reveal_strlit("movies");
        reveal_strlit("videos");
        reveal_strlit("onedrive");
        reveal_strlit("icloud~");
        reveal_strlit("dropbox");
        reveal_strlit(".ssh");
        reveal_strlit(".gnupg");
        reveal_strlit("keychains");
        reveal_strlit("mail");
        reveal_strlit("saved games");
        reveal_strlit("favorites");
        reveal_strlit("contacts");
        reveal_strlit("links");
        reveal_strlit("searches");
        assert(s[1] == text::lower_char(seg[1]));
        assert(s[2] == text::lower_char(seg[2]));
        assert(protected_shape(s.len(), s[1], s[2]));
    }
}

/// A text of plain characters, with a dot at most in front, is a component.
proof fn component(s: Seq<char>)
    requires
        s.len() > 0,
        forall|i: int| 0 <= i < s.len() ==> s[i] != '/' && s[i] != '\\',
        forall|i: int| 0 < i < s.len() ==> s[i] != '.',
    ensures
        is_component(s),
{
    assert forall|i: int| !text::stands_at(s, seq!['.', '.'], i) by {
        if text::stands_at(s, seq!['.', '.'], i) {
            assert(s.subrange(i, i + 2)[1] == s[i + 1]);
        }
    }
}

proof fn segments_hold()
    ensures
        is_component("Downloads"@) && !is_protected_name(text::lower("Downloads"@)),
        is_component("Temp"@) && !is_protected_name(text::lower("Temp"@)),
        is_component("Microsoft"@) && !is_protected_name(text::lower("Microsoft"@)),
        is_component("Windows"@) && !is_protected_name(text::lower("Windows"@)),
        is_component("INetCache"@) && !is_protected_name(text::lower("INetCache"@)),
        is_component("CrashDumps"@) && !is_protected_name(text::lower("CrashDumps"@)),
        is_component("D3DSCache"@) && !is_protected_name(text::lower("D3DSCache"@)),
        is_component("WER"@) && !is_protected_name(text::lower("WER"@)),
        is_component("Google"@) && !is_protected_name(text::lower("Google"@)),
        is_component("Chrome"@) && !is_protected_name(text::lower("Chrome"@)),
        is_component("*"@) && !is_protected_name(text::lower("*"@)),
        is_component("Cache"@) && !is_protected_name(text::lower("Cache"@)),
        is_component("Code Cache"@) && !is_protected_name(text::lower("Code Cache"@)),
        is_component("GPUCache"@) && !is_protected_name(text::lower("GPUCache"@)),
        is_component("Edge"@) && !is_protected_name(text::lower("Edge"@)),
        is_component("BraveSoftware"@) && !is_protected_name(text::lower("BraveSoftware"@)),
        is_component("Brave-Browser"@) && !is_protected_name(text::lower("Brave-Browser"@)),
        is_component("Mozilla"@) && !is_protected_name(text::lower("Mozilla"@)),
        is_component("Firefox"@) && !is_protected_name(text::lower("Firefox"@)),
        is_component("Profiles"@) && !is_protected_name(text::lower("Profiles"@)),
        is_component("cache2"@) && !is_protected_name(text::lower("cache2"@)),
        is_component(".nuget"@) && !is_protected_name(text::lower(".nuget"@)),
        is_component("packages"@) && !is_protected_name(text::lower("packages"@)),
        is_component(".cargo"@) && !is_protected_name(text::lower(".cargo"@)),
        is_component("registry"@) && !is_protected_name(text::lower("registry"@)),
        is_component(".gradle"@) && !is_protected_name(text::lower(".gradle"@)),
        is_component("caches"@) && !is_protected_name(text::lower("caches"@)),
        is_component("npm-cache"@) && !is_protected_name(text::lower("npm-cache"@)),
        is_component("pip"@) && !is_protected_name(text::lower("pip"@)),
        is_component("pnpm"@) && !is_protected_name(text::lower("pnpm"@)),
        is_component("store"@) && !is_protected_name(text::lower("store"@)),
        is_component("Yarn"@) && !is_protected_name(text::lower("Yarn"@)),
        is_component(".android"@) && !is_protected_name(text::lower(".android"@)),
        is_component("avd"@) && !is_protected_name(text::lower("avd"@)),
        is_component("Library"@) && !is_protected_name(text::lower("Library"@)),
        is_component("Caches"@) && !is_protected_name(text::lower("Caches"@)),
        is_component("Logs"@) && !is_protected_name(text::lower("Logs"@)),
        is_component("Developer"@) && !is_protected_name(text::lower("Developer"@)),
        is_component("CoreSimulator"@) && !is_protected_name(text::lower("CoreSimulator"@)),
        is_component("Xcode"@) && !is_protected_name(text::lower("Xcode"@)),
        is_component("DerivedData"@) && !is_protected_name(text::lower("DerivedData"@)),
        is_component(".npm"@) && !is_protected_name(text::lower(".npm"@)),
{
    reveal_strlit("Downloads");
    component("Downloads"@);
    unprotected("Downloads"@);
    reveal_strlit("Temp");
    component("Temp"@);
    unprotected("Temp"@);
    reveal_strlit("Microsoft");
    component("Microsoft"@);
    unprotected("Microsoft"@);
    reveal_strlit("Windows");
    component("Windows"@);
    unprotected("Windows"@);
    reveal_strlit("INetCache");
    component("INetCache"@);
    unprotected("INetCache"@);
    reveal_strlit("CrashDumps");
    component("CrashDumps"@);
    unprotected("CrashDumps"@);
    reveal_strlit("D3DSCache");
    component("D3DSCache"@);
    unprotected("D3DSCache"@);
    reveal_strlit("WER");
    component("WER"@);
    unprotected("WER"@);
    reveal_strlit("Google");
    component("Google"@);
    unprotected("Google"@);
    reveal_strlit("Chrome");
    component("Chrome"@);
    unprotected("Chrome"@);
    reveal_strlit("*");
    component("*"@);
    unprotected("*"@);
    reveal_strlit("Cache");
    component("Cache"@);
    unprotected("Cache"@);
    reveal_strlit("Code Cache");
    component("Code Cache"@);
    unprotected("Code Cache"@);
    reveal_strlit("GPUCache");
    component("GPUCache"@);
    unprotected("GPUCache"@);
    reveal_strlit("Edge");
    component("Edge"@);
    unprotected("Edge"@);
    reveal_strlit("BraveSoftware");
    component("BraveSoftware"@);
    unprotected("BraveSoftware"@);
    reveal_strlit("Brave-Browser");
    component("Brave-Browser"@);
    unprotected("Brave-Browser"@);
    reveal_strlit("Mozilla");
    component("Mozilla"@);
    unprotected("Mozilla"@);
    reveal_strlit("Firefox");
    component("Firefox"@);
    unprotected("Firefox"@);
    reveal_strlit("Profiles");
    component("Profiles"@);
    unprotected("Profiles"@);
    reveal_strlit("cache2");
    component("cache2"@);
    unprotected("cache2"@);
    reveal_strlit(".nuget");
    component(".nuget"@);
    unprotected(".nuget"@);
    reveal_strlit("packages");
    component("packages"@);
    unprotected("packages"@);
    reveal_strlit(".cargo");
    component(".cargo"@);
    unprotected(".cargo"@);
    reveal_strlit("registry");
    component("registry"@);
    unprotected("registry"@);
    reveal_strlit(".gradle");
    component(".gradle"@);
    unprotected(".gradle"@);
    reveal_strlit("caches");
    component("caches"@);
    unprotected("caches"@);
    reveal_strlit("npm-cache");
    component("npm-cache"@);
    unprotected("npm-cache"@);
    reveal_strlit("pip");
    component("pip"@);
    unprotected("pip"@);
    reveal_strlit("pnpm");
    component("pnpm"@);
    unprotected("pnpm"@);
    reveal_strlit("store");
    component("store"@);
    unprotected("store"@);
    reveal_strlit("Yarn");
    component("Yarn"@);
    unprotected("Yarn"@);
    reveal_strlit(".android");
    component(".android"@);
    unprotected(".android"@);
    reveal_strlit("avd");
    component("avd"@);
    unprotected("avd"@);
    reveal_strlit("Library");
    component("Library"@);
    unprotected("Library"@);
    reveal_strlit("Caches");
    component("Caches"@);
    unprotected("Caches"@);
    reveal_strlit("Logs");
    component("Logs"@);
    unprotected("Logs"@);
    reveal_strlit("Developer");
    component("Developer"@);
    unprotected("Developer"@);
    reveal_strlit("CoreSimulator");
    component("CoreSimulator"@);
    unprotected("CoreSimulator"@);
    reveal_strlit("Xcode");
    component("Xcode"@);
    unprotected("Xcode"@);
    reveal_strlit("DerivedData");
    component("DerivedData"@);
    unprotected("DerivedData"@);
    reveal_strlit(".npm");
    component(".npm"@);
    unprotected(".npm"@);
}

/// The category ids that rows are built from.
pub open spec fn is_known_category(c: Seq<char>) -> bool {
    ||| c == "downloads"@
    ||| c == "temp_caches"@
    ||| c == "browser_caches"@
    ||| c == "dev_caches"@
    ||| c == "android_emulators"@
    ||| c == "ios_simulators"@
    ||| c == "xcode_derived"@
}

/// The folders that hold a browser's caches and nothing else.
pub open spec fn is_cache_leaf(s: Seq<char>) -> bool {
    ||| s == "Cache"@
    ||| s == "Code Cache"@
    ||| s == "GPUCache"@
    ||| s == "cache2"@
}

/// What every entry of the table keeps.
pub open spec fn is_safe(e: Entry) -> bool {
    &&& is_known_category(e.category)
    &&& e.segments.len() > 0
    &&& exists|j: int| 0 <= j < e.segments.len() && #[trigger] e.segments[j] != "*"@
    &&& forall|j: int|
        0 <= j < e.segments.len() ==> is_component(#[trigger] e.segments[j])
            && !is_protected_name(text::lower(e.segments[j]))
    &&& e.category == "browser_caches"@ ==> is_cache_leaf(e.segments.last())
}

/// No entry of the table targets user content or credentials at any depth, each
/// names something below its root by single path components, feeds a known
/// category, and reaches of a browser only its caches.
pub proof fn every_pattern_is_safe(host: HostOs, i: int)
    requires
        0 <= i < table(host).len(),
    ensures
        is_safe(table(host)[i]),
{
    segments_hold();
    reveal_strlit("*");
    reveal_strlit("browser_caches");
    reveal_strlit("downloads");
    reveal_strlit("temp_caches");
    reveal_strlit("dev_caches");
    reveal_strlit("android_emulators");
    reveal_strlit("ios_simulators");
    reveal_strlit("xcode_derived");
    assert("downloads"@.len() != "browser_caches"@.len());
    assert("temp_caches"@.len() != "browser_caches"@.len());
    assert("dev_caches"@.len() != "browser_caches"@.len());
    assert("android_emulators"@.len() != "browser_caches"@.len());
    assert("ios_simulators"@ != "browser_caches"@) by {
        assert("ios_simulators"@[0] != "browser_caches"@[0]);
    }
    assert("xcode_derived"@.len() != "browser_caches"@.len());
    match host {
        HostOs::Windows => {
            let t = windows_table();
            assert(t[0].category == "downloads"@);
            assert(t[0].segments[0] == "Downloads"@);
            reveal_strlit("Downloads");
            assert(is_safe(t[0]));
            assert(t[1].category == "temp_caches"@);
            assert(t[1].segments[0] == "Temp"@);
            reveal_strlit("Temp");
            assert(is_safe(t[1]));
            assert(t[2].category == "temp_caches"@);
            assert(t[2].segments[2] == "INetCache"@);
            reveal_strlit("INetCache");
            assert(is_safe(t[2]));
            assert(t[3].category == "temp_caches"@);
            assert(t[3].segments[0] == "CrashDumps"@);
            reveal_strlit("CrashDumps");
            assert(is_safe(t[3]));
            assert(t[4].category == "temp_caches"@);
            assert(t[4].segments[0] == "D3DSCache"@);
            reveal_strlit("D3DSCache");
            assert(is_safe(t[4]));
            assert(t[5].category == "temp_caches"@);
            assert(t[5].segments[2] == "WER"@);
            reveal_strlit("WER");
            assert(is_safe(t[5]));
            assert(t[6].category == "browser_caches"@);
            assert(t[6].segments[3] == "Cache"@);
            reveal_strlit("Cache");
            assert(is_safe(t[6]));
            assert(t[7].category == "browser_caches"@);
            assert(t[7].segments[3] == "Code Cache"@);
            reveal_strlit("Code Cache");
            assert(is_safe(t[7]));
            assert(t[8].category == "browser_caches"@);
            assert(t[8].segments[3] == "GPUCache"@);
            reveal_strlit("GPUCache");
            assert(is_safe(t[8]));
            assert(t[9].category == "browser_caches"@);
            assert(t[9].segments[3] == "Cache"@);
            reveal_strlit("Cache");
            assert(is_safe(t[9]));
            assert(t[10].category == "browser_caches"@);
            assert(t[10].segments[3] == "Code Cache"@);
            reveal_strlit("Code Cache");
            assert(is_safe(t[10]));
            assert(t[11].category == "browser_caches"@);
            assert(t[11].segments[3] == "GPUCache"@);
            reveal_strlit("GPUCache");
            assert(is_safe(t[11]));
            assert(t[12].category == "browser_caches"@);
            assert(t[12].segments[3] == "Cache"@);
            reveal_strlit("Cache");
            assert(is_safe(t[12]));
            assert(t[13].category == "browser_caches"@);
            assert(t[13].segments[3] == "Code Cache"@);
            reveal_strlit("Code Cache");
            assert(is_safe(t[13]));
            assert(t[14].category == "browser_caches"@);
            assert(t[14].segments[3] == "GPUCache"@);
            reveal_strlit("GPUCache");
            assert(is_safe(t[14]));
            assert(t[15].category == "browser_caches"@);
            assert(t[15].segments[4] == "cache2"@);
            reveal_strlit("cache2");
            assert(is_safe(t[15]));
            assert(t[16].category == "dev_caches"@);
            assert(t[16].segments[1] == "packages"@);
            reveal_strlit("packages");
            assert(is_safe(t[16]));
            assert(t[17].category == "dev_caches"@);
            assert(t[17].segments[1] == "registry"@);
            reveal_strlit("registry");
            assert(is_safe(t[17]));
            assert(t[18].category == "dev_caches"@);
            assert(t[18].segments[1] == "caches"@);
            reveal_strlit("caches");
            assert(is_safe(t[18]));
            assert(t[19].category == "dev_caches"@);
            assert(t[19].segments[0] == "npm-cache"@);
            reveal_strlit("npm-cache");
            assert(is_safe(t[19]));
            assert(t[20].category == "dev_caches"@);
            assert(t[20].segments[1] == "Cache"@);
            reveal_strlit("Cache");
            assert(is_safe(t[20]));
            assert(t[21].category == "dev_caches"@);
            assert(t[21].segments[1] == "store"@);
            reveal_strlit("store");
            assert(is_safe(t[21]));
            assert(t[22].category == "dev_caches"@);
            assert(t[22].segments[1] == "Cache"@);
            reveal_strlit("Cache");
            assert(is_safe(t[22]));
            assert(t[23].category == "android_emulators"@);
            assert(t[23].segments[1] == "avd"@);
            reveal_strlit("avd");
            assert(is_safe(t[23]));
            assert(is_safe(t[i]));
        },
        HostOs::MacOs => {
            let t = mac_table();
            assert(t[0].category == "downloads"@);
            assert(t[0].segments[0] == "Downloads"@);
            reveal_strlit("Downloads");
            assert(is_safe(t[0]));
            assert(t[1].category == "temp_caches"@);
            assert(t[1].segments[1] == "Caches"@);
            reveal_strlit("Caches");
            assert(is_safe(t[1]));
            assert(t[2].category == "temp_caches"@);
            assert(t[2].segments[1] == "Logs"@);
            reveal_strlit("Logs");
            assert(is_safe(t[2]));
            assert(t[3].category == "ios_simulators"@);
            assert(t[3].segments[1] == "CoreSimulator"@);
            reveal_strlit("CoreSimulator");
            assert(is_safe(t[3]));
            assert(t[4].category == "xcode_derived"@);
            assert(t[4].segments[3] == "DerivedData"@);
            reveal_strlit("DerivedData");
            assert(is_safe(t[4]));
            assert(t[5].category == "dev_caches"@);
            assert(t[5].segments[1] == "registry"@);
            reveal_strlit("registry");
            assert(is_safe(t[5]));
            assert(t[6].category == "dev_caches"@);
            assert(t[6].segments[1] == "caches"@);
            reveal_strlit("caches");
            assert(is_safe(t[6]));
            assert(t[7].category == "dev_caches"@);
            assert(t[7].segments[0] == ".npm"@);
            reveal_strlit(".npm");
            assert(is_safe(t[7]));
            assert(t[8].category == "android_emulators"@);
            assert(t[8].segments[1] == "avd"@);
            reveal_strlit("avd");
            assert(is_safe(t[8]));
            assert(is_safe(t[i]));
        },
    }
}

} // verus!
