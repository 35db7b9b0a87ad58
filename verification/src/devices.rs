//! Device names, and how an audio source is paired with a video source.
use vstd::prelude::*;

verus! {

/// The ASCII lowercase of a character; other characters are unchanged.
pub open spec fn ascii_lower(c: char) -> char {
    if 'A' <= c && c <= 'Z' {
        ((c as u32) + 32) as char
    } else {
        c
    }
}

/// An ASCII letter or digit.
pub open spec fn ascii_alphanumeric(c: char) -> bool {
    ||| '0' <= c && c <= '9'
    ||| 'a' <= c && c <= 'z'
    ||| 'A' <= c && c <= 'Z'
}

/// The ASCII lowercase of a text.
pub open spec fn lower_text(s: Seq<char>) -> Seq<char> {
    s.map_values(|c: char| ascii_lower(c))
}

/// `s` with every occurrence of `word` removed, scanning from the left and
/// never letting two removed occurrences overlap.
pub open spec fn remove_word(s: Seq<char>, word: Seq<char>) -> Seq<char>
    decreases s.len(),
{
    if s.len() == 0 || word.len() == 0 {
        s
    } else if word.len() <= s.len() && s.subrange(0, word.len() as int) == word {
        remove_word(s.subrange(word.len() as int, s.len() as int), word)
    } else {
        seq![s[0]] + remove_word(s.subrange(1, s.len() as int), word)
    }
}

/// The generic words that say what kind of source a device is rather than
/// which device it is, in the order in which they are removed.
pub open spec fn generic_words() -> Seq<Seq<char>> {
    seq![
        seq!['v', 'i', 'd', 'e', 'o'],
        seq!['a', 'u', 'd', 'i', 'o'],
        seq!['c', 'a', 'm', 'e', 'r', 'a'],
        seq!['m', 'i', 'c', 'r', 'o', 'p', 'h', 'o', 'n', 'e'],
        seq!['c', 'a', 'p', 't', 'u', 'r', 'e'],
        seq!['i', 'n', 'p', 'u', 't'],
    ]
}

/// `s` with each of the first `n` generic words removed in turn.
pub open spec fn remove_generic_words(s: Seq<char>, n: nat) -> Seq<char>
    decreases n,
{
    if n == 0 {
        s
    } else {
        remove_word(remove_generic_words(s, (n - 1) as nat), generic_words()[n - 1])
    }
}

/// The part of a device name that identifies the device: lowercased, without
/// the generic words, and keeping only ASCII letters and digits.
pub open spec fn normalized_name(name: Seq<char>) -> Seq<char> {
    remove_generic_words(lower_text(name), generic_words().len()).filter(
        |c: char| ascii_alphanumeric(c),
    )
}

/// Append a character to a string. Calls std's `String::push`, which
/// std documents as appending the character to the end of the string: the
/// contract claims that the string's characters afterwards are the old ones
/// followed by `c`.
#[verifier::external_body]
fn push_char(s: &mut String, c: char)
    ensures
        final(s)@ == old(s)@.push(c),
{
    s.push(c);
}

fn lower_char(c: char) -> (r: char)
    ensures
        r == ascii_lower(c),
{
    if 'A' <= c && c <= 'Z' {
        let code: u8 = (c as u8) + 32;
        code as char
    } else {
        c
    }
}

fn is_alphanumeric_char(c: char) -> (r: bool)
    ensures
        r == ascii_alphanumeric(c),
{
    ('0' <= c && c <= '9') || ('a' <= c && c <= 'z') || ('A' <= c && c <= 'Z')
}

/// Whether `word` occurs in `s` at position `at`.
fn occurs_at(s: &Vec<char>, at: usize, word: &[char]) -> (r: bool)
    requires
        at <= s@.len(),
    ensures
        r == (word@.len() <= s@.len() - at && s@.subrange(at as int, at + word@.len()) == word@),
{
    let n: usize = s.len();
    if word.len() > n - at {
        return false;
    }
    let mut k: usize = 0;
    while k < word.len()
        invariant
            k <= word@.len(),
            at <= s@.len(),
            n == s@.len(),
            word@.len() <= s@.len() - at,
            forall|m: int| 0 <= m < k ==> s@[at + m] == word@[m],
        decreases word@.len() - k,
    {
        if s[at + k] != word[k] {
            assert(s@.subrange(at as int, at + word@.len())[k as int] != word@[k as int]);
            return false;
        }
        k = k + 1;
    }
    assert(s@.subrange(at as int, at + word@.len()) =~= word@);
    true
}

/// `s` with every occurrence of `word` removed, as `str::replace` with an
/// empty replacement does.
fn without_word(s: &Vec<char>, word: &[char]) -> (r: Vec<char>)
    requires
        word@.len() > 0,
    ensures
        r@ == remove_word(s@, word@),
{
    let mut out: Vec<char> = Vec::new();
    let mut i: usize = 0;
    assert(s@.subrange(0, s@.len() as int) =~= s@);
    assert(out@ + remove_word(s@, word@) =~= remove_word(s@, word@));
    while i < s.len()
        invariant
            i <= s@.len(),
            word@.len() > 0,
            out@ + remove_word(s@.subrange(i as int, s@.len() as int), word@) == remove_word(
                s@,
                word@,
            ),
        decreases s@.len() - i,
    {
        let ghost rest = s@.subrange(i as int, s@.len() as int);
        if occurs_at(s, i, word) {
            assert(rest.subrange(0, word@.len() as int) =~= s@.subrange(i as int, i + word@.len()));
            assert(rest.subrange(word@.len() as int, rest.len() as int) =~= s@.subrange(
                i + word@.len(),
                s@.len() as int,
            ));
            i = i + word.len();
        } else {
            proof {
                if word@.len() <= rest.len() {
                    assert(rest.subrange(0, word@.len() as int) =~= s@.subrange(
                        i as int,
                        i + word@.len(),
                    ));
                }
            }
            assert(rest.subrange(1, rest.len() as int) =~= s@.subrange(i + 1, s@.len() as int));
            assert(rest[0] == s@[i as int]);
            out.push(s[i]);
            assert(out@ + remove_word(rest.subrange(1, rest.len() as int), word@) =~= (out@.drop_last()
                + seq![s@[i as int]]) + remove_word(rest.subrange(1, rest.len() as int), word@));
            i = i + 1;
        }
    }
    assert(s@.subrange(i as int, s@.len() as int) =~= Seq::<char>::empty());
    assert(out@ + Seq::<char>::empty() =~= out@);
    out
}

/// The identifying part of a device name, so that a video source and the
/// audio source of the same hardware ("USB Video Capture", "USB Audio") can be
/// paired: ASCII letters are lowercased, the words "video", "audio",
/// "camera", "microphone", "capture" and "input" are removed in that order,
/// and only ASCII letters and digits are kept.
pub fn normalized_device_name(name: &str) -> (r: String)
    ensures
        r@ == normalized_name(name@),
{
    normalize_with_length(name).0
}

/// The normalized name together with its number of characters.
fn normalize_with_length(name: &str) -> (r: (String, usize))
    ensures
        r.0@ == normalized_name(name@),
        r.1 == r.0@.len(),
{
    let mut lowered: Vec<char> = Vec::new();
    for c in it: name.chars()
        invariant
            it.seq() == name@,
            lowered@ == lower_text(name@.take(it.index())),
    {
        proof {
            assert(name@.take(it.index() + 1) =~= name@.take(it.index()).push(c));
        }
        lowered.push(lower_char(c));
        assert(lowered@ =~= lower_text(name@.take(it.index() + 1)));
    }
    assert(name@.take(name@.len() as int) =~= name@);

    let mut text = lowered;
    assert(text@ == remove_generic_words(lower_text(name@), 0));
    text = without_word(&text, &['v', 'i', 'd', 'e', 'o']);
    assert(text@ == remove_generic_words(lower_text(name@), 1));
    text = without_word(&text, &['a', 'u', 'd', 'i', 'o']);
    assert(text@ == remove_generic_words(lower_text(name@), 2));
    text = without_word(&text, &['c', 'a', 'm', 'e', 'r', 'a']);
    assert(text@ == remove_generic_words(lower_text(name@), 3));
    text = without_word(&text, &['m', 'i', 'c', 'r', 'o', 'p', 'h', 'o', 'n', 'e']);
    assert(text@ == remove_generic_words(lower_text(name@), 4));
    text = without_word(&text, &['c', 'a', 'p', 't', 'u', 'r', 'e']);
    assert(text@ == remove_generic_words(lower_text(name@), 5));
    text = without_word(&text, &['i', 'n', 'p', 'u', 't']);
    assert(text@ == remove_generic_words(lower_text(name@), 6));

    let mut out = String::new();
    let mut count: usize = 0;
    let mut i: usize = 0;
    while i < text.len()
        invariant
            i <= text@.len(),
            count == out@.len(),
            count <= i,
            out@ == text@.take(i as int).filter(|c: char| ascii_alphanumeric(c)),
        decreases text@.len() - i,
    {
        let c = text[i];
        proof {
            assert(text@.take(i + 1) =~= text@.take(i as int).push(c));
            text@.take(i as int).lemma_filter_push(c, |c: char| ascii_alphanumeric(c));
        }
        if is_alphanumeric_char(c) {
            push_char(&mut out, c);
            count = count + 1;
        }
        i = i + 1;
    }
    assert(text@.take(text@.len() as int) =~= text@);
    (out, count)
}

/// A character of a normalized name: an ASCII lowercase letter or a digit.
pub open spec fn normalized_char(c: char) -> bool {
    ('0' <= c && c <= '9') || ('a' <= c && c <= 'z')
}

proof fn lemma_ascii_lower_idempotent(c: char)
    ensures
        ascii_lower(ascii_lower(c)) == ascii_lower(c),
        !('A' <= ascii_lower(c) && ascii_lower(c) <= 'Z'),
{
}

/// Removing a word only ever drops characters.
proof fn lemma_remove_word_chars(s: Seq<char>, word: Seq<char>, k: int)
    requires
        0 <= k < remove_word(s, word).len(),
    ensures
        s.contains(remove_word(s, word)[k]),
    decreases s.len(),
{
    if s.len() == 0 || word.len() == 0 {
        assert(s[k] == remove_word(s, word)[k]);
    } else if word.len() <= s.len() && s.subrange(0, word.len() as int) == word {
        let rest = s.subrange(word.len() as int, s.len() as int);
        lemma_remove_word_chars(rest, word, k);
        let i = choose|i: int| 0 <= i < rest.len() && rest[i] == remove_word(s, word)[k];
        assert(s[word.len() + i] == rest[i]);
    } else {
        let rest = s.subrange(1, s.len() as int);
        if k == 0 {
            assert(s[0] == remove_word(s, word)[k]);
        } else {
            assert(remove_word(s, word)[k] == remove_word(rest, word)[k - 1]);
            lemma_remove_word_chars(rest, word, k - 1);
            let i = choose|i: int| 0 <= i < rest.len() && rest[i] == remove_word(rest, word)[k - 1];
            assert(s[1 + i] == rest[i]);
        }
    }
}

/// Removing generic words from an ASCII-lowercase text leaves it ASCII-lowercase.
proof fn lemma_remove_generic_words_lower(s: Seq<char>, n: nat)
    requires
        n <= generic_words().len(),
        forall|i: int| 0 <= i < s.len() ==> !('A' <= #[trigger] s[i] && s[i] <= 'Z'),
    ensures
        forall|i: int|
            0 <= i < remove_generic_words(s, n).len() ==> !('A' <= #[trigger] remove_generic_words(
                s,
                n,
            )[i] && remove_generic_words(s, n)[i] <= 'Z'),
    decreases n,
{
    if n > 0 {
        lemma_remove_generic_words_lower(s, (n - 1) as nat);
        let prev = remove_generic_words(s, (n - 1) as nat);
        let word = generic_words()[n - 1];
        assert forall|i: int| 0 <= i < remove_word(prev, word).len() implies !('A'
            <= #[trigger] remove_word(prev, word)[i] && remove_word(prev, word)[i] <= 'Z') by {
            lemma_remove_word_chars(prev, word, i);
        }
    }
}

/// A normalized name is made of ASCII lowercase letters and digits only, and
/// it does not depend on the ASCII case of the name.
pub proof fn lemma_normalized_name_shape(name: Seq<char>)
    ensures
        forall|i: int|
            0 <= i < normalized_name(name).len() ==> normalized_char(#[trigger] normalized_name(name)[i]),
        normalized_name(lower_text(name)) == normalized_name(name),
{
    let lowered = lower_text(name);
    assert forall|i: int| 0 <= i < lowered.len() implies !('A' <= #[trigger] lowered[i] && lowered[i]
        <= 'Z') by {
        lemma_ascii_lower_idempotent(name[i]);
    }
    lemma_remove_generic_words_lower(lowered, generic_words().len());
    let removed = remove_generic_words(lowered, generic_words().len());
    let pred = |c: char| ascii_alphanumeric(c);
    assert forall|i: int| 0 <= i < removed.filter(pred).len() implies normalized_char(
        #[trigger] removed.filter(pred)[i],
    ) by {
        let c = removed.filter(pred)[i];
        assert(removed.filter(pred).contains(c));
        removed.lemma_filter_contains_rev(pred, c);
        assert(removed.contains(c));
        let j = choose|j: int| 0 <= j < removed.len() && removed[j] == c;
        assert(!('A' <= removed[j] && removed[j] <= 'Z'));
    }
    assert forall|i: int| 0 <= i < lowered.len() implies #[trigger] lower_text(lowered)[i]
        == lowered[i] by {
        lemma_ascii_lower_idempotent(name[i]);
    }
    assert(lower_text(lowered) =~= lowered);
}

/// No character of `w` is a space.
pub open spec fn spaceless(w: Seq<char>) -> bool {
    forall|i: int| 0 <= i < w.len() ==> w[i] != ' '
}

/// A word without spaces is removed on each side of a space separately.
proof fn lemma_remove_word_split(a: Seq<char>, b: Seq<char>, u: Seq<char>)
    requires
        spaceless(u),
        u.len() > 0,
    ensures
        remove_word(a + seq![' '] + b, u) == remove_word(a, u) + seq![' '] + remove_word(b, u),
    decreases a.len(),
{
    let c = seq![' '] + b;
    let s = a + seq![' '] + b;
    assert(s =~= a + c);
    if a.len() == 0 {
        assert(s =~= c);
        assert(c[0] == ' ');
        if u.len() <= c.len() {
            assert(c.subrange(0, u.len() as int)[0] == ' ');
            assert(c.subrange(0, u.len() as int) != u);
        }
        assert(c.subrange(1, c.len() as int) =~= b);
        assert(remove_word(a, u) == a);
        assert(a + seq![' '] + remove_word(b, u) =~= seq![c[0]] + remove_word(b, u));
    } else {
        let prefix_matches = u.len() <= a.len() && a.subrange(0, u.len() as int) == u;
        if u.len() <= a.len() {
            assert(s.subrange(0, u.len() as int) =~= a.subrange(0, u.len() as int));
        } else if u.len() <= s.len() {
            assert(s.subrange(0, u.len() as int)[a.len() as int] == ' ');
            assert(s.subrange(0, u.len() as int) != u);
        }
        if prefix_matches {
            let rest = a.subrange(u.len() as int, a.len() as int);
            assert(s.subrange(u.len() as int, s.len() as int) =~= rest + seq![' '] + b);
            lemma_remove_word_split(rest, b, u);
        } else {
            let rest = a.subrange(1, a.len() as int);
            assert(s.subrange(1, s.len() as int) =~= rest + seq![' '] + b);
            lemma_remove_word_split(rest, b, u);
            assert(s[0] == a[0]);
            assert(seq![a[0]] + (remove_word(rest, u) + seq![' '] + remove_word(b, u)) =~= (seq![a[0]]
                + remove_word(rest, u)) + seq![' '] + remove_word(b, u));
        }
    }
}

/// A word with a character that does not occur in `s` is not removed from it.
proof fn lemma_remove_absent_word(s: Seq<char>, u: Seq<char>, k: int)
    requires
        0 <= k < u.len(),
        forall|i: int| 0 <= i < s.len() ==> s[i] != u[k],
    ensures
        remove_word(s, u) == s,
    decreases s.len(),
{
    if s.len() > 0 {
        if u.len() <= s.len() {
            assert(s.subrange(0, u.len() as int)[k] == s[k]);
        }
        let rest = s.subrange(1, s.len() as int);
        lemma_remove_absent_word(rest, u, k);
        assert(seq![s[0]] + rest =~= s);
    }
}

/// A word is removed from itself entirely.
proof fn lemma_remove_whole_word(u: Seq<char>)
    requires
        u.len() > 0,
    ensures
        remove_word(u, u) == Seq::<char>::empty(),
{
    assert(u.subrange(0, u.len() as int) =~= u);
    assert(u.subrange(u.len() as int, u.len() as int) =~= Seq::<char>::empty());
    assert(remove_word(Seq::<char>::empty(), u) == Seq::<char>::empty());
}

/// Removing words from nothing leaves nothing.
proof fn lemma_remove_from_empty(n: nat)
    requires
        n <= generic_words().len(),
    ensures
        remove_generic_words(Seq::<char>::empty(), n) == Seq::<char>::empty(),
    decreases n,
{
    if n > 0 {
        lemma_remove_from_empty((n - 1) as nat);
    }
}

/// The generic words hold no space.
proof fn lemma_generic_words_spaceless(m: int)
    requires
        0 <= m < generic_words().len(),
    ensures
        spaceless(generic_words()[m]),
        generic_words()[m].len() > 0,
{
}

/// Generic words are removed on each side of a space separately.
proof fn lemma_remove_generic_words_split(a: Seq<char>, b: Seq<char>, n: nat)
    requires
        n <= generic_words().len(),
    ensures
        remove_generic_words(a + seq![' '] + b, n) == remove_generic_words(a, n) + seq![' ']
            + remove_generic_words(b, n),
    decreases n,
{
    if n > 0 {
        lemma_remove_generic_words_split(a, b, (n - 1) as nat);
        lemma_generic_words_spaceless(n - 1);
        lemma_remove_word_split(
            remove_generic_words(a, (n - 1) as nat),
            remove_generic_words(b, (n - 1) as nat),
            generic_words()[n - 1],
        );
    }
}

/// Each generic word on its own is removed completely.
proof fn lemma_generic_word_removed(m: int)
    requires
        0 <= m < generic_words().len(),
    ensures
        remove_generic_words(generic_words()[m], generic_words().len()) == Seq::<char>::empty(),
{
    let g = generic_words();
    let w = g[m];
    lemma_generic_words_spaceless(m);
    assert(remove_generic_words(w, 0) == w);
    if m == 0 {
        lemma_remove_whole_word(w);
        assert(remove_generic_words(w, 1) == Seq::<char>::empty());
    } else if m == 1 {
        lemma_remove_absent_word(w, g[0], 0);
        assert(remove_generic_words(w, 1) == w);
        lemma_remove_whole_word(w);
        assert(remove_generic_words(w, 2) == Seq::<char>::empty());
    } else if m == 2 {
        lemma_remove_absent_word(w, g[0], 0);
        assert(remove_generic_words(w, 1) == w);
        lemma_remove_absent_word(w, g[1], 1);
        assert(remove_generic_words(w, 2) == w);
        lemma_remove_whole_word(w);
        assert(remove_generic_words(w, 3) == Seq::<char>::empty());
    } else if m == 3 {
        lemma_remove_absent_word(w, g[0], 0);
        assert(remove_generic_words(w, 1) == w);
        lemma_remove_absent_word(w, g[1], 0);
        assert(remove_generic_words(w, 2) == w);
        lemma_remove_absent_word(w, g[2], 1);
        assert(remove_generic_words(w, 3) == w);
        lemma_remove_whole_word(w);
        assert(remove_generic_words(w, 4) == Seq::<char>::empty());
    } else if m == 4 {
        lemma_remove_absent_word(w, g[0], 0);
        assert(remove_generic_words(w, 1) == w);
        lemma_remove_absent_word(w, g[1], 2);
        assert(remove_generic_words(w, 2) == w);
        lemma_remove_absent_word(w, g[2], 2);
        assert(remove_generic_words(w, 3) == w);
        lemma_remove_absent_word(w, g[3], 0);
        assert(remove_generic_words(w, 4) == w);
        lemma_remove_whole_word(w);
        assert(remove_generic_words(w, 5) == Seq::<char>::empty());
    } else {
        lemma_remove_absent_word(w, g[0], 0);
        assert(remove_generic_words(w, 1) == w);
        lemma_remove_absent_word(w, g[1], 0);
        assert(remove_generic_words(w, 2) == w);
        lemma_remove_absent_word(w, g[2], 0);
        assert(remove_generic_words(w, 3) == w);
        lemma_remove_absent_word(w, g[3], 0);
        assert(remove_generic_words(w, 4) == w);
        lemma_remove_absent_word(w, g[4], 0);
        assert(remove_generic_words(w, 5) == w);
        lemma_remove_whole_word(w);
        assert(remove_generic_words(w, 6) == Seq::<char>::empty());
    }
    lemma_stays_removed(w, (m + 1) as nat, g.len());
}

/// Once a text is removed completely, further words leave nothing.
proof fn lemma_stays_removed(w: Seq<char>, n: nat, k: nat)
    requires
        n <= k <= generic_words().len(),
        remove_generic_words(w, n) == Seq::<char>::empty(),
    ensures
        remove_generic_words(w, k) == Seq::<char>::empty(),
    decreases k - n,
{
    if n < k {
        assert(remove_generic_words(w, n + 1) == remove_word(Seq::<char>::empty(), generic_words()[n as int]));
        lemma_stays_removed(w, n + 1, k);
    }
}

/// The words "video", "audio", "camera", "microphone", "capture" and "input"
/// say what kind of source a device is, not which device it is: each of them
/// alone normalizes to nothing, and after any name and a space it changes
/// nothing ("USB Microphone" and "USB Camera" both normalize as "USB" does).
pub proof fn lemma_generic_words_carry_no_identity(word: Seq<char>, name: Seq<char>)
    requires
        word == seq!['v', 'i', 'd', 'e', 'o'] || word == seq!['a', 'u', 'd', 'i', 'o'] || word
            == seq!['c', 'a', 'm', 'e', 'r', 'a'] || word == seq![
            'm',
            'i',
            'c',
            'r',
            'o',
            'p',
            'h',
            'o',
            'n',
            'e',
        ] || word == seq!['c', 'a', 'p', 't', 'u', 'r', 'e'] || word == seq!['i', 'n', 'p', 'u', 't'],
    ensures
        normalized_name(word) == Seq::<char>::empty(),
        normalized_name(name + seq![' '] + word) == normalized_name(name),
{
    let g = generic_words();
    let m: int = if word == g[0] {
        0
    } else if word == g[1] {
        1
    } else if word == g[2] {
        2
    } else if word == g[3] {
        3
    } else if word == g[4] {
        4
    } else {
        5
    };
    assert(word == g[m]);
    assert(lower_text(word) =~= word);
    lemma_generic_word_removed(m);
    let pred = |c: char| ascii_alphanumeric(c);
    assert(Seq::<char>::empty().filter(pred) =~= Seq::<char>::empty()) by {
        reveal(Seq::filter);
    }
    let lowered = lower_text(name);
    assert(lower_text(name + seq![' '] + word) =~= lowered + seq![' '] + word);
    lemma_remove_generic_words_split(lowered, word, g.len());
    let removed = remove_generic_words(lowered, g.len());
    assert(removed + seq![' '] + Seq::<char>::empty() =~= removed.push(' '));
    removed.lemma_filter_push(' ', pred);
}

/// What the pairing rules know of a capture device.
#[derive(Debug)]
pub struct DeviceInfo {
    pub uid: String,
    pub name: String,
    pub model: String,
    pub manufacturer: String,
    /// The device itself delivers audio.
    pub has_audio: bool,
}

/// Where the audio of a video source comes from.
#[derive(Clone, Copy, Debug, PartialEq, Eq)]
pub enum AudioSource {
    /// The video device delivers audio itself.
    VideoDevice,
    /// The linked device at this index.
    Linked(usize),
    /// The audio device at this index of the list of audio devices.
    Listed(usize),
    /// No audio device goes with the video source.
    Unavailable,
}

/// A way of recognising the audio half of a video source's hardware.
pub enum PairingRule {
    /// The device delivers audio.
    HasAudio,
    /// The device has the video device's name.
    SameName,
    /// The device has the video device's model and manufacturer.
    SameModel,
    /// The device's name normalizes to the video device's normalized name.
    SameNormalizedName,
}

/// Whether `candidate` goes with `video` under `rule`.
pub open spec fn pairs_with(rule: PairingRule, video: DeviceInfo, candidate: DeviceInfo) -> bool {
    match rule {
        PairingRule::HasAudio => candidate.has_audio,
        PairingRule::SameName => candidate.name@ == video.name@,
        PairingRule::SameModel => candidate.model@ == video.model@ && candidate.manufacturer@
            == video.manufacturer@,
        PairingRule::SameNormalizedName => normalized_name(candidate.name@) == normalized_name(
            video.name@,
        ),
    }
}

/// `i` is the first index of `devices` that goes with `video` under `rule`.
pub open spec fn is_first_pairing(
    rule: PairingRule,
    video: DeviceInfo,
    devices: Seq<DeviceInfo>,
    i: int,
) -> bool {
    &&& 0 <= i < devices.len()
    &&& pairs_with(rule, video, devices[i])
    &&& forall|j: int| 0 <= j < i ==> !pairs_with(rule, video, #[trigger] devices[j])
}

/// The first index of `devices` that goes with `video` under `rule`, if any.
pub open spec fn first_pairing(rule: PairingRule, video: DeviceInfo, devices: Seq<DeviceInfo>) -> Option<
    int,
> {
    if exists|i: int| is_first_pairing(rule, video, devices, i) {
        Some(choose|i: int| is_first_pairing(rule, video, devices, i))
    } else {
        None
    }
}

/// The audio source that goes with `video` when none was chosen: the video
/// device itself if it delivers audio; else the first linked device that
/// does; else the first audio device with the same name; else, if the video
/// device reports a model, the first one with the same model and
/// manufacturer; else, if the video device's normalized name has at least
/// three characters, the first one with the same normalized name.
pub open spec fn automatic_audio_source(
    video: DeviceInfo,
    linked: Seq<DeviceInfo>,
    audio: Seq<DeviceInfo>,
) -> AudioSource {
    if video.has_audio {
        AudioSource::VideoDevice
    } else if first_pairing(PairingRule::HasAudio, video, linked) is Some {
        AudioSource::Linked(first_pairing(PairingRule::HasAudio, video, linked)->0 as usize)
    } else if first_pairing(PairingRule::SameName, video, audio) is Some {
        AudioSource::Listed(first_pairing(PairingRule::SameName, video, audio)->0 as usize)
    } else if video.model@.len() > 0 && first_pairing(PairingRule::SameModel, video, audio) is Some {
        AudioSource::Listed(first_pairing(PairingRule::SameModel, video, audio)->0 as usize)
    } else if normalized_name(video.name@).len() >= 3 && first_pairing(
        PairingRule::SameNormalizedName,
        video,
        audio,
    ) is Some {
        AudioSource::Listed(
            first_pairing(PairingRule::SameNormalizedName, video, audio)->0 as usize,
        )
    } else {
        AudioSource::Unavailable
    }
}

/// The automatic choice always names an existing device that delivers or
/// matches the video source's audio.
pub proof fn lemma_automatic_audio_source_valid(
    video: DeviceInfo,
    linked: Seq<DeviceInfo>,
    audio: Seq<DeviceInfo>,
)
    requires
        linked.len() <= usize::MAX,
        audio.len() <= usize::MAX,
    ensures
        automatic_audio_source(video, linked, audio) is VideoDevice ==> video.has_audio,
        automatic_audio_source(video, linked, audio) matches AudioSource::Linked(i) ==> i
            < linked.len() && linked[i as int].has_audio,
        automatic_audio_source(video, linked, audio) matches AudioSource::Listed(i) ==> i
            < audio.len() && (pairs_with(PairingRule::SameName, video, audio[i as int]) || pairs_with(
            PairingRule::SameModel,
            video,
            audio[i as int],
        ) || pairs_with(PairingRule::SameNormalizedName, video, audio[i as int])),
{
    if first_pairing(PairingRule::HasAudio, video, linked) is Some {
        let i = choose|i: int| is_first_pairing(PairingRule::HasAudio, video, linked, i);
        assert(is_first_pairing(PairingRule::HasAudio, video, linked, i));
    }
    if first_pairing(PairingRule::SameName, video, audio) is Some {
        let i = choose|i: int| is_first_pairing(PairingRule::SameName, video, audio, i);
        assert(is_first_pairing(PairingRule::SameName, video, audio, i));
    }
    if first_pairing(PairingRule::SameModel, video, audio) is Some {
        let i = choose|i: int| is_first_pairing(PairingRule::SameModel, video, audio, i);
        assert(is_first_pairing(PairingRule::SameModel, video, audio, i));
    }
    if first_pairing(PairingRule::SameNormalizedName, video, audio) is Some {
        let i = choose|i: int| is_first_pairing(PairingRule::SameNormalizedName, video, audio, i);
        assert(is_first_pairing(PairingRule::SameNormalizedName, video, audio, i));
    }
}

/// No device pairs under `rule`: there is no first pairing.
proof fn lemma_no_pairing(rule: PairingRule, video: DeviceInfo, devices: Seq<DeviceInfo>)
    requires
        forall|j: int| 0 <= j < devices.len() ==> !pairs_with(rule, video, #[trigger] devices[j]),
    ensures
        first_pairing(rule, video, devices) is None,
{
    if exists|i: int| is_first_pairing(rule, video, devices, i) {
        let i = choose|i: int| is_first_pairing(rule, video, devices, i);
        assert(!pairs_with(rule, video, devices[i]));
    }
}

/// A video device that delivers audio is its own audio source.
pub proof fn lemma_own_audio_first(video: DeviceInfo, linked: Seq<DeviceInfo>, audio: Seq<DeviceInfo>)
    requires
        video.has_audio,
    ensures
        automatic_audio_source(video, linked, audio) == AudioSource::VideoDevice,
{
}

/// Otherwise the first linked device that delivers audio is taken.
pub proof fn lemma_linked_audio_next(
    video: DeviceInfo,
    linked: Seq<DeviceInfo>,
    audio: Seq<DeviceInfo>,
    i: int,
)
    requires
        !video.has_audio,
        0 <= i < linked.len() <= usize::MAX,
        linked[i].has_audio,
        forall|j: int| 0 <= j < i ==> !(#[trigger] linked[j]).has_audio,
    ensures
        automatic_audio_source(video, linked, audio) == AudioSource::Linked(i as usize),
{
    lemma_first_pairing_at(PairingRule::HasAudio, video, linked, i);
}

/// Otherwise the first audio device with exactly the video device's name is taken.
pub proof fn lemma_same_name_next(
    video: DeviceInfo,
    linked: Seq<DeviceInfo>,
    audio: Seq<DeviceInfo>,
    i: int,
)
    requires
        !video.has_audio,
        forall|j: int| 0 <= j < linked.len() ==> !(#[trigger] linked[j]).has_audio,
        0 <= i < audio.len() <= usize::MAX,
        audio[i].name@ == video.name@,
        forall|j: int| 0 <= j < i ==> (#[trigger] audio[j]).name@ != video.name@,
    ensures
        automatic_audio_source(video, linked, audio) == AudioSource::Listed(i as usize),
{
    lemma_no_pairing(PairingRule::HasAudio, video, linked);
    lemma_first_pairing_at(PairingRule::SameName, video, audio, i);
}

/// Otherwise, when the video device reports a model, the first audio device
/// with its model and manufacturer is taken, before any match by
/// normalized name.
pub proof fn lemma_same_model_next(
    video: DeviceInfo,
    linked: Seq<DeviceInfo>,
    audio: Seq<DeviceInfo>,
    i: int,
)
    requires
        !video.has_audio,
        forall|j: int| 0 <= j < linked.len() ==> !(#[trigger] linked[j]).has_audio,
        forall|j: int| 0 <= j < audio.len() ==> (#[trigger] audio[j]).name@ != video.name@,
        video.model@.len() > 0,
        0 <= i < audio.len() <= usize::MAX,
        audio[i].model@ == video.model@ && audio[i].manufacturer@ == video.manufacturer@,
        forall|j: int|
            0 <= j < i ==> !((#[trigger] audio[j]).model@ == video.model@ && audio[j].manufacturer@
                == video.manufacturer@),
    ensures
        automatic_audio_source(video, linked, audio) == AudioSource::Listed(i as usize),
{
    lemma_no_pairing(PairingRule::HasAudio, video, linked);
    lemma_no_pairing(PairingRule::SameName, video, audio);
    lemma_first_pairing_at(PairingRule::SameModel, video, audio, i);
}

/// Otherwise, when the video device's normalized name has at least three
/// characters, the first audio device with the same normalized name is taken.
pub proof fn lemma_same_normalized_name_last(
    video: DeviceInfo,
    linked: Seq<DeviceInfo>,
    audio: Seq<DeviceInfo>,
    i: int,
)
    requires
        !video.has_audio,
        forall|j: int| 0 <= j < linked.len() ==> !(#[trigger] linked[j]).has_audio,
        forall|j: int| 0 <= j < audio.len() ==> (#[trigger] audio[j]).name@ != video.name@,
        video.model@.len() == 0 || forall|j: int|
            0 <= j < audio.len() ==> !((#[trigger] audio[j]).model@ == video.model@
                && audio[j].manufacturer@ == video.manufacturer@),
        normalized_name(video.name@).len() >= 3,
        0 <= i < audio.len() <= usize::MAX,
        normalized_name(audio[i].name@) == normalized_name(video.name@),
        forall|j: int|
            0 <= j < i ==> normalized_name((#[trigger] audio[j]).name@) != normalized_name(
                video.name@,
            ),
    ensures
        automatic_audio_source(video, linked, audio) == AudioSource::Listed(i as usize),
{
    lemma_no_pairing(PairingRule::HasAudio, video, linked);
    lemma_no_pairing(PairingRule::SameName, video, audio);
    if video.model@.len() > 0 {
        lemma_no_pairing(PairingRule::SameModel, video, audio);
    }
    lemma_first_pairing_at(PairingRule::SameNormalizedName, video, audio, i);
}

/// When no rule finds a device, no audio source goes with the video source.
pub proof fn lemma_no_audio_source(video: DeviceInfo, linked: Seq<DeviceInfo>, audio: Seq<DeviceInfo>)
    requires
        !video.has_audio,
        forall|j: int| 0 <= j < linked.len() ==> !(#[trigger] linked[j]).has_audio,
        forall|j: int| 0 <= j < audio.len() ==> (#[trigger] audio[j]).name@ != video.name@,
        video.model@.len() == 0 || forall|j: int|
            0 <= j < audio.len() ==> !((#[trigger] audio[j]).model@ == video.model@
                && audio[j].manufacturer@ == video.manufacturer@),
        normalized_name(video.name@).len() < 3 || forall|j: int|
            0 <= j < audio.len() ==> normalized_name((#[trigger] audio[j]).name@) != normalized_name(
                video.name@,
            ),
    ensures
        automatic_audio_source(video, linked, audio) == AudioSource::Unavailable,
{
    lemma_no_pairing(PairingRule::HasAudio, video, linked);
    lemma_no_pairing(PairingRule::SameName, video, audio);
    if video.model@.len() > 0 {
        lemma_no_pairing(PairingRule::SameModel, video, audio);
    }
    if normalized_name(video.name@).len() >= 3 {
        lemma_no_pairing(PairingRule::SameNormalizedName, video, audio);
    }
}

/// The first pairing index is unique.
proof fn lemma_first_pairing_at(rule: PairingRule, video: DeviceInfo, devices: Seq<DeviceInfo>, i: int)
    requires
        is_first_pairing(rule, video, devices, i),
    ensures
        first_pairing(rule, video, devices) == Some(i),
{
    let k = choose|k: int| is_first_pairing(rule, video, devices, k);
    assert(is_first_pairing(rule, video, devices, k));
    if k < i {
        assert(!pairs_with(rule, video, devices[k]));
    } else if i < k {
        assert(!pairs_with(rule, video, devices[i]));
    }
}

/// Find the first device that goes with `video` under `rule`; the caller
/// passes the video device's normalized name.
fn find_pairing(
    rule: &PairingRule,
    video: &DeviceInfo,
    video_normalized: &String,
    devices: &Vec<DeviceInfo>,
) -> (r: Option<usize>)
    requires
        video_normalized@ == normalized_name(video.name@),
    ensures
        match r {
            Some(i) => first_pairing(*rule, *video, devices@) == Some(i as int),
            None => first_pairing(*rule, *video, devices@) is None,
        },
{
    let mut i: usize = 0;
    while i < devices.len()
        invariant
            i <= devices@.len(),
            video_normalized@ == normalized_name(video.name@),
            forall|j: int| 0 <= j < i ==> !pairs_with(*rule, *video, #[trigger] devices@[j]),
        decreases devices@.len() - i,
    {
        let candidate = &devices[i];
        let pairs = match rule {
            PairingRule::HasAudio => candidate.has_audio,
            PairingRule::SameName => candidate.name == video.name,
            PairingRule::SameModel => candidate.model == video.model && candidate.manufacturer
                == video.manufacturer,
            PairingRule::SameNormalizedName => normalized_device_name(candidate.name.as_str())
                == *video_normalized,
        };
        if pairs {
            proof {
                lemma_first_pairing_at(*rule, *video, devices@, i as int);
            }
            return Some(i);
        }
        i = i + 1;
    }
    None
}

/// Choose the audio source that goes with a video source when the user chose
/// none (see `automatic_audio_source`). `linked` are the devices linked to
/// the video device; `audio` is the list of audio devices.
pub fn automatic_audio_device(
    video: &DeviceInfo,
    linked: &Vec<DeviceInfo>,
    audio: &Vec<DeviceInfo>,
) -> (r: AudioSource)
    ensures
        r == automatic_audio_source(*video, linked@, audio@),
{
    if video.has_audio {
        return AudioSource::VideoDevice;
    }
    let (video_normalized, normalized_length) = normalize_with_length(video.name.as_str());
    if let Some(i) = find_pairing(&PairingRule::HasAudio, video, &video_normalized, linked) {
        return AudioSource::Linked(i);
    }
    if let Some(i) = find_pairing(&PairingRule::SameName, video, &video_normalized, audio) {
        return AudioSource::Listed(i);
    }
    if !video.model.as_str().is_empty() {
        if let Some(i) = find_pairing(&PairingRule::SameModel, video, &video_normalized, audio) {
            return AudioSource::Listed(i);
        }
    }
    if normalized_length >= 3 {
        if let Some(i) = find_pairing(
            &PairingRule::SameNormalizedName,
            video,
            &video_normalized,
            audio,
        ) {
            return AudioSource::Listed(i);
        }
    }
    AudioSource::Unavailable
}

} // verus!
