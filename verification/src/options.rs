//! What a command line asks for.

use crate::orient::Orient;
use crate::text::{chars_of, concat, is_space, space, starts_with};
use vstd::prelude::*;
use vstd::string::*;

verus! {

/// The options of a command: the design, the values given by name, and the switches.
#[derive(Debug)]
pub struct Opts {
    pub odb: String,
    pub keys: Vec<(String, String)>,
    pub dry_run: bool,
    pub mirror: bool,
}

/// What the options are; a design may not have been named yet.
pub struct OptsView {
    pub odb: Option<Seq<char>>,
    pub keys: Seq<(Seq<char>, Seq<char>)>,
    pub dry_run: bool,
    pub mirror: bool,
}

impl Default for Opts {
    fn default() -> (o: Opts)
        ensures
            o.odb@.len() == 0,
            o.keys@.len() == 0,
            !o.dry_run,
            !o.mirror,
    {
        Opts { odb: String::new(), keys: Vec::new(), dry_run: false, mirror: false }
    }
}

pub open spec fn key_views(keys: Seq<(String, String)>) -> Seq<(Seq<char>, Seq<char>)> {
    Seq::new(keys.len(), |i: int| (keys[i].0@, keys[i].1@))
}

impl View for Opts {
    type V = OptsView;

    open spec fn view(&self) -> OptsView {
        OptsView {
            odb: Some(self.odb@),
            keys: key_views(self.keys@),
            dry_run: self.dry_run,
            mirror: self.mirror,
        }
    }
}

/// The first value given under a name.
pub open spec fn value_of(keys: Seq<(Seq<char>, Seq<char>)>, k: Seq<char>) -> Option<Seq<char>>
    decreases keys.len(),
{
    if keys.len() == 0 {
        None
    } else if keys[0].0 == k {
        Some(keys[0].1)
    } else {
        value_of(keys.drop_first(), k)
    }
}

/// The complaint about a value that is not given.
pub open spec fn required(k: Seq<char>) -> Seq<char> {
    "--"@ + k + " is required"@
}

/// A value or a complaint, as text.
pub open spec fn value_view(r: Result<&str, String>) -> Result<Seq<char>, Seq<char>> {
    match r {
        Ok(v) => Ok(v@),
        Err(e) => Err(e@),
    }
}

impl Opts {
    /// The value given under a name.
    pub fn get(&self, k: &str) -> (v: Option<&str>)
        ensures
            v matches Some(x) ==> value_of(self@.keys, k@) == Some(x@),
            v is None ==> value_of(self@.keys, k@) is None,
    {
        let ghost all = self@.keys;
        let mut i: usize = 0;
        assert(all.skip(0) =~= all);
        while i < self.keys.len()
            invariant
                i <= self.keys.len(),
                all == self@.keys,
                value_of(all, k@) == value_of(all.skip(i as int), k@),
            decreases self.keys.len() - i,
        {
            assert(all.skip(i as int)[0] == (self.keys@[i as int].0@, self.keys@[i as int].1@));
            if *self.keys[i].0.as_str() == *k {
                return Some(self.keys[i].1.as_str());
            }
            assert(all.skip(i as int).drop_first() =~= all.skip(i + 1));
            i += 1;
        }
        None
    }

    /// The value given under a name, which has to be given.
    pub fn need(&self, k: &str) -> (v: Result<&str, String>)
        ensures
            value_view(v) == match value_of(self@.keys, k@) {
                Some(x) => Ok::<Seq<char>, Seq<char>>(x),
                None => Err(required(k@)),
            },
    {
        match self.get(k) {
            Some(v) => Ok(v),
            None => {
                let mut e = concat("--", k);
                e.append(" is required");
                Err(e)
            },
        }
    }
}

/// The text without the dashes in front of it.
pub open spec fn undashed(s: Seq<char>) -> Seq<char>
    decreases s.len(),
{
    if s.len() > 0 && s[0] == '-' {
        undashed(s.drop_first())
    } else {
        s
    }
}

fn strip_dashes(s: &str) -> (r: String)
    ensures
        r@ == undashed(s@),
{
    let chars = chars_of(s);
    let mut i: usize = 0;
    assert(chars@.skip(0) =~= chars@);
    while i < chars.len() && chars[i] == '-'
        invariant
            i <= chars.len(),
            undashed(chars@) == undashed(chars@.skip(i as int)),
        decreases chars.len() - i,
    {
        assert(chars@.skip(i as int).drop_first() =~= chars@.skip(i + 1));
        i += 1;
    }
    assert(s@.subrange(i as int, s@.len() as int) =~= chars@.skip(i as int));
    s.substring_char(i, chars.len()).to_owned()
}

/// An argument takes a value: it starts with two dashes, or is `-o`.
pub open spec fn takes_value(a: Seq<char>) -> bool {
    "--"@.is_prefix_of(a) || a == "-o"@
}

/// A word in back quotes behind some text.
pub open spec fn quoting(text: Seq<char>, a: Seq<char>) -> Seq<char> {
    text + a + "`"@
}

/// The options with one argument more that takes no value, or the complaint about it.
pub open spec fn with_word(o: OptsView, a: Seq<char>) -> Result<OptsView, Seq<char>> {
    if a == "--json"@ {
        Ok(o)
    } else if a == "--dry-run"@ {
        Ok(OptsView { dry_run: true, ..o })
    } else if a == "--mirror"@ {
        Ok(OptsView { mirror: true, ..o })
    } else if "-"@.is_prefix_of(a) {
        Err(quoting("unknown option `"@, a))
    } else if o.odb is Some {
        Err(quoting("unexpected argument `"@, a))
    } else {
        Ok(OptsView { odb: Some(a), ..o })
    }
}

/// An argument is one of the switches.
pub open spec fn is_switch(a: Seq<char>) -> bool {
    a == "--json"@ || a == "--dry-run"@ || a == "--mirror"@
}

/// The options that the arguments from `i` on add, or the first complaint about one.
pub open spec fn parsed(args: Seq<Seq<char>>, i: int, o: OptsView) -> Result<OptsView, Seq<char>>
    decreases args.len() - i,
{
    if i >= args.len() {
        match o.odb {
            Some(_) => Ok(o),
            None => Err("a path to a .odb is required"@),
        }
    } else if !is_switch(args[i]) && takes_value(args[i]) {
        if i + 1 >= args.len() {
            Err(args[i] + " needs a value"@)
        } else {
            parsed(
                args,
                i + 2,
                OptsView { keys: o.keys.push((undashed(args[i]), args[i + 1])), ..o },
            )
        }
    } else {
        match with_word(o, args[i]) {
            Ok(next) => parsed(args, i + 1, next),
            Err(e) => Err(e),
        }
    }
}

pub open spec fn no_options() -> OptsView {
    OptsView { odb: None, keys: Seq::empty(), dry_run: false, mirror: false }
}

pub open spec fn texts(list: Seq<String>) -> Seq<Seq<char>> {
    Seq::new(list.len(), |i: int| list[i]@)
}

/// Options or a complaint, as text.
pub open spec fn opts_view(r: Result<Opts, String>) -> Result<OptsView, Seq<char>> {
    match r {
        Ok(o) => Ok(o@),
        Err(e) => Err(e@),
    }
}

fn complaint(text: &str, a: &str) -> (e: String)
    ensures
        e@ == quoting(text@, a@),
{
    let mut e = concat(text, a);
    e.append("`");
    e
}

spec fn partial(odb: Option<String>, keys: Seq<(String, String)>, dry_run: bool, mirror: bool) -> OptsView {
    OptsView { odb: crate::text::text_of(odb), keys: key_views(keys), dry_run, mirror }
}

/// Read a command's arguments.
///
/// A second bare word is rejected, not taken: silently overwriting the design path would make an
/// unquoted list read a file named after one of its numbers, and the failure would look like a
/// missing file rather than a mistyped command.
pub fn parse_opts(args: &[String]) -> (r: Result<Opts, String>)
    ensures
        opts_view(r) == parsed(texts(args@), 0, no_options()),
{
    let ghost all = texts(args@);
    let mut odb: Option<String> = None;
    let mut keys: Vec<(String, String)> = Vec::new();
    let mut dry_run = false;
    let mut mirror = false;
    let mut i: usize = 0;
    assert(key_views(keys@) =~= Seq::empty());
    while i < args.len()
        invariant
            i <= args.len(),
            all == texts(args@),
            parsed(all, 0, no_options()) == parsed(
                all,
                i as int,
                partial(odb, keys@, dry_run, mirror),
            ),
        decreases args.len() - i,
    {
        let a = args[i].as_str();
        assert(all[i as int] == a@);
        if *a == *"--json" {
        } else if *a == *"--dry-run" {
            dry_run = true;
        } else if *a == *"--mirror" {
            mirror = true;
        } else if starts_with(a, "--") || *a == *"-o" {
            if i + 1 >= args.len() {
                return Err(concat(a, " needs a value"));
            }
            let ghost before = key_views(keys@);
            let key = strip_dashes(a);
            let value = args[i + 1].clone();
            assert(all[i + 1] == value@);
            keys.push((key, value));
            assert(key_views(keys@) =~= before.push((undashed(a@), value@)));
            i += 1;
        } else if starts_with(a, "-") {
            return Err(complaint("unknown option `", a));
        } else if odb.is_some() {
            return Err(complaint("unexpected argument `", a));
        } else {
            odb = Some(a.to_owned());
        }
        i += 1;
    }
    match odb {
        Some(odb) => Ok(Opts { odb, keys, dry_run, mirror }),
        None => Err("a path to a .odb is required".to_owned()),
    }
}

/// The complaint about a rotation that is none.
pub open spec fn bad_rotation(key: Seq<char>, v: Seq<char>) -> Seq<char> {
    "--"@ + key + ": `"@ + v + "` is not an orientation (R0, R90, MX, MXR90, …)"@
}

/// A rotation argument, in the database's spelling.
pub fn rotation(opts: &Opts, key: &str) -> (r: Result<Orient, String>)
    ensures
        match value_of(opts@.keys, key@) {
            None => r matches Ok(o) && o == Orient::R0,
            Some(v) => match r {
                Ok(o) => v == o.odb_name(),
                Err(e) => (forall|o: Orient| v != #[trigger] o.odb_name()) && e@ == bad_rotation(
                    key@,
                    v,
                ),
            },
        },
{
    let v = match opts.get(key) {
        None => {
            return Ok(Orient::R0);
        },
        Some(v) => v,
    };
    match Orient::parse(v) {
        Some(o) => Ok(o),
        None => {
            let mut e = concat("--", key);
            e.append(": `");
            e.append(v);
            e.append("` is not an orientation (R0, R90, MX, MXR90, …)");
            Err(e)
        },
    }
}

/// The value of a digit.
pub open spec fn digit_value(c: char) -> Option<int> {
    if '0' <= c <= '9' {
        Some(c as int - '0' as int)
    } else {
        None
    }
}

/// A number in decimal digits, which has to have one.
pub open spec fn magnitude(s: Seq<char>) -> Option<int>
    decreases s.len(),
{
    if s.len() == 0 {
        None
    } else {
        match digit_value(s.last()) {
            None => None,
            Some(d) => {
                if s.len() == 1 {
                    Some(d)
                } else {
                    match magnitude(s.drop_last()) {
                        Some(m) => Some(10 * m + d),
                        None => None,
                    }
                }
            },
        }
    }
}

/// A whole number in decimal, with or without a sign.
pub open spec fn whole(s: Seq<char>) -> Option<int> {
    if s.len() > 0 && s[0] == '-' {
        match magnitude(s.drop_first()) {
            Some(m) => Some(-m),
            None => None,
        }
    } else if s.len() > 0 && s[0] == '+' {
        magnitude(s.drop_first())
    } else {
        magnitude(s)
    }
}

/// A digit that is none spoils the number.
proof fn lemma_spoiled(s: Seq<char>, k: int)
    requires
        0 <= k < s.len(),
        digit_value(s[k]) is None,
    ensures
        magnitude(s) is None,
    decreases s.len(),
{
    if k < s.len() - 1 {
        assert(s.drop_last()[k] == s[k]);
        lemma_spoiled(s.drop_last(), k);
    }
}

/// A longer number is no smaller.
proof fn lemma_longer(s: Seq<char>, k: int)
    requires
        0 < k <= s.len(),
        magnitude(s) is Some,
    ensures
        magnitude(s.take(k)) is Some,
        magnitude(s.take(k))->0 <= magnitude(s)->0,
        0 <= magnitude(s.take(k))->0,
    decreases s.len(),
{
    if k == s.len() {
        assert(s.take(k) =~= s);
        if s.len() > 1 {
            lemma_longer(s.drop_last(), s.len() - 1);
            assert(s.drop_last().take(s.len() - 1) =~= s.drop_last());
        }
    } else {
        lemma_longer(s.drop_last(), k);
        assert(s.drop_last().take(k) =~= s.take(k));
    }
}

/// A number of decimal digits from a place on, as long as it stays below a bound.
fn read_digits(chars: &Vec<char>, from: usize) -> (m: Option<i64>)
    requires
        from <= chars.len(),
    ensures
        m matches Some(v) ==> magnitude(chars@.skip(from as int)) == Some(v as int) && 0 <= v
            <= 0x1_0000_0000_0000,
        m is None ==> (magnitude(chars@.skip(from as int)) matches Some(v) ==> v
            > 0x1_0000_0000),
{
    let ghost all = chars@.skip(from as int);
    if from == chars.len() {
        return None;
    }
    let mut m: i64 = 0;
    let mut i: usize = from;
    assert(all.take(0) =~= Seq::<char>::empty());
    while i < chars.len()
        invariant
            from <= i <= chars.len(),
            from < chars.len(),
            all == chars@.skip(from as int),
            i == from ==> m == 0,
            i > from ==> magnitude(all.take(i - from)) == Some(m as int),
            0 <= m <= 0x1_0000_0000_0000,
        decreases chars.len() - i,
    {
        let c = chars[i];
        let ghost part = all.take(i + 1 - from);
        assert(part.drop_last() =~= all.take(i - from));
        assert(part.last() == c);
        assert(all[i - from] == c);
        if !('0' <= c && c <= '9') {
            proof {
                lemma_spoiled(all, i - from);
            }
            return None;
        }
        let d: i64 = (c as u32 - '0' as u32) as i64;
        if m > 0x1_0000_0000 {
            proof {
                if magnitude(all) is Some {
                    lemma_longer(all, i - from);
                }
            }
            return None;
        }
        m = 10 * m + d;
        assert(magnitude(part) == Some(m as int));
        i += 1;
    }
    assert(all.take(all.len() as int) =~= all);
    Some(m)
}

/// A whole number in decimal, where it fits.
pub fn parse_i32(s: &str) -> (r: Option<i32>)
    ensures
        match whole(s@) {
            Some(v) => r == (if i32::MIN <= v <= i32::MAX { Some(v as i32) } else { None }),
            None => r is None,
        },
{
    let chars = chars_of(s);
    assert(chars@.skip(0) =~= chars@);
    if chars.len() == 0 {
        return None;
    }
    assert(chars@.skip(1) =~= chars@.drop_first());
    let signed = chars[0] == '-' || chars[0] == '+';
    let m: i64 = match read_digits(&chars, if signed { 1 } else { 0 }) {
        Some(m) => m,
        None => {
            return None;
        },
    };
    let v: i64 = if chars[0] == '-' { -m } else { m };
    if v < i32::MIN as i64 || v > i32::MAX as i64 {
        None
    } else {
        Some(v as i32)
    }
}

/// A number's own decimal text reads back as the number.
pub proof fn law_decimal_reads_back(v: int)
    ensures
        whole(crate::text::decimal(v)) == Some(v),
{
    if v < 0 {
        let d = crate::text::digits((-v) as nat);
        assert(crate::text::decimal(v).drop_first() =~= d);
        lemma_digits_read_back((-v) as nat);
    } else {
        lemma_digits_read_back(v as nat);
        lemma_digits_no_sign(v as nat);
    }
}

proof fn lemma_digits_read_back(n: nat)
    ensures
        magnitude(crate::text::digits(n)) == Some(n as int),
    decreases n,
{
    let d = crate::text::digits(n);
    if n >= 10 {
        lemma_digits_read_back(n / 10);
        assert(d.drop_last() =~= crate::text::digits(n / 10));
    }
}

proof fn lemma_digits_no_sign(n: nat)
    ensures
        crate::text::digits(n).len() > 0,
        crate::text::digits(n)[0] != '-',
        crate::text::digits(n)[0] != '+',
    decreases n,
{
    if n >= 10 {
        lemma_digits_no_sign(n / 10);
    }
}

/// A text split at white space: the words so far, and the one being read.
pub open spec fn split(s: Seq<char>) -> (Seq<Seq<char>>, Seq<char>)
    decreases s.len(),
{
    if s.len() == 0 {
        (Seq::empty(), Seq::empty())
    } else {
        let (done, word) = split(s.drop_last());
        if is_space(s.last()) {
            (with_word_done(done, word), Seq::empty())
        } else {
            (done, word.push(s.last()))
        }
    }
}

/// A word added to those so far, unless it is empty.
pub open spec fn with_word_done(done: Seq<Seq<char>>, word: Seq<char>) -> Seq<Seq<char>> {
    if word.len() > 0 {
        done.push(word)
    } else {
        done
    }
}

/// The words of a text.
pub open spec fn words_of(s: Seq<char>) -> Seq<Seq<char>> {
    with_word_done(split(s).0, split(s).1)
}

/// The words of a text, white space between them.
pub fn words(s: &str) -> (out: Vec<String>)
    ensures
        texts(out@) == words_of(s@),
{
    let chars = chars_of(s);
    let mut out: Vec<String> = Vec::new();
    let mut start: usize = 0;
    let mut i: usize = 0;
    assert(chars@.take(0) =~= Seq::<char>::empty());
    assert(texts(out@) =~= Seq::empty());
    assert(chars@.subrange(0, 0) =~= Seq::<char>::empty());
    while i < chars.len()
        invariant
            start <= i <= chars.len(),
            chars@ == s@,
            split(chars@.take(i as int)) == (
                texts(out@),
                chars@.subrange(start as int, i as int),
            ),
        decreases chars.len() - i,
    {
        let ghost part = chars@.take(i + 1);
        assert(part.drop_last() =~= chars@.take(i as int));
        let ghost before = texts(out@);
        if space(chars[i]) {
            if start < i {
                out.push(s.substring_char(start, i).to_owned());
                assert(texts(out@) =~= before.push(chars@.subrange(start as int, i as int)));
            }
            start = i + 1;
            assert(chars@.subrange(start as int, i + 1) =~= Seq::<char>::empty());
        } else {
            assert(chars@.subrange(start as int, i + 1) =~= chars@.subrange(
                start as int,
                i as int,
            ).push(chars@[i as int]));
        }
        i += 1;
    }
    assert(chars@.take(chars@.len() as int) =~= chars@);
    let ghost before = texts(out@);
    if start < i {
        out.push(s.substring_char(start, i).to_owned());
        assert(texts(out@) =~= before.push(chars@.subrange(start as int, i as int)));
    }
    out
}

/// A whole number given under a name, or the complaint.
pub open spec fn number_of(keys: Seq<(Seq<char>, Seq<char>)>, key: Seq<char>) -> Result<
    int,
    Seq<char>,
> {
    match value_of(keys, key) {
        None => Err(required(key)),
        Some(v) => match whole(v) {
            Some(n) if i32::MIN <= n <= i32::MAX => Ok(n),
            _ => Err(not_whole(key)),
        },
    }
}

/// The complaint about a value that is no whole number.
pub open spec fn not_whole(key: Seq<char>) -> Seq<char> {
    "--"@ + key + " wants a whole number"@
}

/// A number or a complaint.
pub open spec fn number_view(r: Result<i32, String>) -> Result<int, Seq<char>> {
    match r {
        Ok(n) => Ok(n as int),
        Err(e) => Err(e@),
    }
}

fn wants_whole(key: &str) -> (e: String)
    ensures
        e@ == not_whole(key@),
{
    let mut e = concat("--", key);
    e.append(" wants a whole number");
    e
}

/// A whole number given under a name, which has to be given.
pub fn count(opts: &Opts, key: &str) -> (r: Result<i32, String>)
    ensures
        number_view(r) == number_of(opts@.keys, key@),
{
    match opts.need(key) {
        Err(e) => Err(e),
        Ok(v) => match parse_i32(v) {
            Some(n) => Ok(n),
            None => Err(wants_whole(key)),
        },
    }
}

/// The ring index: where none is given there is one ring.
pub fn ring_index(opts: &Opts) -> (r: Result<i32, String>)
    ensures
        number_view(r) == (if value_of(opts@.keys, "ring-index"@) is None {
            Ok::<int, Seq<char>>(-1)
        } else {
            number_of(opts@.keys, "ring-index"@)
        }),
{
    match opts.get("ring-index") {
        None => Ok(-1),
        Some(v) => match parse_i32(v) {
            Some(n) => Ok(n),
            None => Err(wants_whole("ring-index")),
        },
    }
}

/// What a name was given: the first value given under it, and none where none was.
pub proof fn law_first_value(keys: Seq<(Seq<char>, Seq<char>)>, k: Seq<char>)
    ensures
        match value_of(keys, k) {
            Some(v) => exists|i: int|
                0 <= i < keys.len() && #[trigger] keys[i] == (k, v) && forall|j: int|
                    0 <= j < i ==> (#[trigger] keys[j]).0 != k,
            None => forall|j: int| 0 <= j < keys.len() ==> (#[trigger] keys[j]).0 != k,
        },
    decreases keys.len(),
{
    if keys.len() > 0 {
        if keys[0].0 == k {
            assert(keys[0] == (k, keys[0].1));
        } else {
            let rest = keys.drop_first();
            law_first_value(rest, k);
            match value_of(rest, k) {
                Some(v) => {
                    let i = choose|i: int|
                        0 <= i < rest.len() && #[trigger] rest[i] == (k, v) && forall|j: int|
                            0 <= j < i ==> (#[trigger] rest[j]).0 != k;
                    assert(keys[i + 1] == (k, v));
                    assert forall|j: int| 0 <= j < i + 1 implies (#[trigger] keys[j]).0 != k by {
                        if j > 0 {
                            assert(rest[j - 1].0 != k);
                        }
                    }
                },
                None => {
                    assert forall|j: int| 0 <= j < keys.len() implies (#[trigger] keys[j]).0
                        != k by {
                        if j > 0 {
                            assert(rest[j - 1].0 != k);
                        }
                    }
                },
            }
        }
    }
}

/// An option is known by its name without the dashes in front of it.
pub proof fn law_undashed(dashes: Seq<char>, name: Seq<char>)
    requires
        forall|i: int| 0 <= i < dashes.len() ==> #[trigger] dashes[i] == '-',
        name.len() > 0 ==> name[0] != '-',
    ensures
        undashed(dashes + name) == name,
    decreases dashes.len(),
{
    let all = dashes + name;
    if dashes.len() > 0 {
        assert(all.drop_first() =~= dashes.drop_first() + name);
        assert(all[0] == dashes[0]);
        law_undashed(dashes.drop_first(), name);
    } else {
        assert(all =~= name);
    }
}

/// What arguments do. What was given before stays given; a design is named; and a switch is set only by its own
/// argument.
pub proof fn law_arguments_add(args: Seq<Seq<char>>, i: int, o: OptsView)
    requires
        0 <= i <= args.len(),
    ensures
        parsed(args, i, o) matches Ok(all) ==> {
            &&& all.odb is Some && (o.odb is Some ==> all.odb == o.odb)
            &&& o.keys.is_prefix_of(all.keys)
            &&& all.dry_run ==> o.dry_run || args.contains("--dry-run"@)
            &&& all.mirror ==> o.mirror || args.contains("--mirror"@)
            &&& o.dry_run ==> all.dry_run
            &&& o.mirror ==> all.mirror
            &&& i < args.len() && args[i] == "--dry-run"@ ==> all.dry_run
            &&& i < args.len() && args[i] == "--mirror"@ ==> all.mirror
        },
    decreases args.len() - i,
{
    reveal_strlit("--json");
    reveal_strlit("--dry-run");
    reveal_strlit("--mirror");
    assert("--json"@.len() == 6 && "--dry-run"@.len() == 9 && "--mirror"@.len() == 8);
    if i < args.len() {
        assert(args.contains(args[i]));
        if !is_switch(args[i]) && takes_value(args[i]) {
            if i + 1 < args.len() {
                let next = OptsView {
                    keys: o.keys.push((undashed(args[i]), args[i + 1])),
                    ..o
                };
                law_arguments_add(args, i + 2, next);
            }
        } else {
            match with_word(o, args[i]) {
                Ok(next) => {
                    law_arguments_add(args, i + 1, next);
                },
                Err(_) => {},
            }
        }
    }
}

/// An option and its value are taken together: the value is found under the option's name, whatever comes
/// after them.
pub proof fn law_option_takes_its_value(
    args: Seq<Seq<char>>,
    i: int,
    o: OptsView,
    name: Seq<char>,
)
    requires
        0 <= i,
        i + 1 < args.len(),
        args[i] == "--"@ + name,
        name.len() > 0,
        name[0] != '-',
        name != "json"@,
        name != "dry-run"@,
        name != "mirror"@,
        value_of(o.keys, name) is None,
    ensures
        parsed(args, i, o) matches Ok(all) ==> value_of(all.keys, name) == Some(args[i + 1]),
{
    reveal_strlit("--");
    reveal_strlit("--json");
    reveal_strlit("json");
    reveal_strlit("--dry-run");
    reveal_strlit("dry-run");
    reveal_strlit("--mirror");
    reveal_strlit("mirror");
    let a = args[i];
    assert(a.skip(2) =~= name);
    assert("--json"@.skip(2) =~= "json"@);
    assert("--dry-run"@.skip(2) =~= "dry-run"@);
    assert("--mirror"@.skip(2) =~= "mirror"@);
    assert(!is_switch(a));
    assert("--"@.is_prefix_of(a));
    law_undashed("--"@, name);
    let next = OptsView { keys: o.keys.push((undashed(a), args[i + 1])), ..o };
    law_arguments_add(args, i + 2, next);
    if let Ok(all) = parsed(args, i, o) {
        lemma_found_behind(o.keys, all.keys, name, args[i + 1]);
    }
}

proof fn lemma_found_behind(
    before: Seq<(Seq<char>, Seq<char>)>,
    all: Seq<(Seq<char>, Seq<char>)>,
    name: Seq<char>,
    v: Seq<char>,
)
    requires
        value_of(before, name) is None,
        before.push((name, v)).is_prefix_of(all),
    ensures
        value_of(all, name) == Some(v),
    decreases before.len(),
{
    let some = before.push((name, v));
    assert(all[0] == some[0]);
    if before.len() == 0 {
        assert(all[0] == (name, v));
    } else {
        assert(before[0].0 != name);
        let (rest, most) = (before.drop_first(), all.drop_first());
        assert(rest.push((name, v)) =~= some.drop_first());
        assert(some =~= all.take(some.len() as int));
        assert(rest.push((name, v)) =~= most.take(rest.push((name, v)).len() as int));
        lemma_found_behind(rest, most, name, v);
    }
}

/// A text without white space.
pub open spec fn solid(s: Seq<char>) -> bool {
    forall|i: int| 0 <= i < s.len() ==> !is_space(#[trigger] s[i])
}

/// The words of a text are what white space parts: white space between two texts parts their words, a text
/// without any is one word, and an empty one has none.
pub proof fn law_words(a: Seq<char>, c: char, b: Seq<char>, w: Seq<char>)
    requires
        is_space(c),
        solid(w),
    ensures
        words_of(a + seq![c] + b) == words_of(a) + words_of(b),
        w.len() > 0 ==> words_of(w) == seq![w],
        words_of(Seq::<char>::empty()).len() == 0,
{
    lemma_one_word(w);
    lemma_split_behind(a, c, b);
    assert(with_word_done(Seq::empty(), w) =~= if w.len() > 0 {
        seq![w]
    } else {
        Seq::<Seq<char>>::empty()
    });
    let all = a + seq![c] + b;
    let (done, word) = split(b);
    assert(with_word_done(words_of(a) + done, word) =~= words_of(a) + with_word_done(done, word));
}

proof fn lemma_one_word(w: Seq<char>)
    requires
        solid(w),
    ensures
        split(w) == (Seq::<Seq<char>>::empty(), w),
    decreases w.len(),
{
    if w.len() > 0 {
        assert(!is_space(w[w.len() - 1]));
        assert(solid(w.drop_last())) by {
            assert forall|i: int| 0 <= i < w.drop_last().len() implies !is_space(
                #[trigger] w.drop_last()[i],
            ) by {
                assert(!is_space(w[i]));
            }
        }
        lemma_one_word(w.drop_last());
        assert(w.drop_last().push(w.last()) =~= w);
    } else {
        assert(w =~= Seq::<char>::empty());
    }
}

proof fn lemma_split_behind(a: Seq<char>, c: char, b: Seq<char>)
    requires
        is_space(c),
    ensures
        split(a + seq![c] + b) == (words_of(a) + split(b).0, split(b).1),
    decreases b.len(),
{
    let all = a + seq![c] + b;
    if b.len() == 0 {
        assert(all.drop_last() =~= a);
        assert(all.last() == c);
        assert(words_of(a) + split(b).0 =~= words_of(a));
    } else {
        assert(all.drop_last() =~= a + seq![c] + b.drop_last());
        assert(all.last() == b.last());
        lemma_split_behind(a, c, b.drop_last());
        let (done, word) = split(b.drop_last());
        assert(with_word_done(words_of(a) + done, word) =~= words_of(a) + with_word_done(
            done,
            word,
        ));
    }
}

} // verus!
