//! Code page 437 <-> Unicode mapping. .ANS files are CP437 bytes; the canvas
//! stores Unicode chars for display and converts at load/save time.
use vstd::prelude::*;

verus! {

/// Glyphs for bytes 0x00-0x1F (0x00 rendered as space).
pub const LOW: [char; 32] = [
    ' ', '☺', '☻', '♥', '♦', '♣', '♠', '•', '◘', '○', '◙', '♂', '♀', '♪', '♫', '☼',
    '►', '◄', '↕', '‼', '¶', '§', '▬', '↨', '↑', '↓', '→', '←', '∟', '↔', '▲', '▼',
];

/// Glyphs for bytes 0x80-0xFF.
pub const HIGH: [char; 128] = [
    'Ç', 'ü', 'é', 'â', 'ä', 'à', 'å', 'ç', 'ê', 'ë', 'è', 'ï', 'î', 'ì', 'Ä', 'Å',
    'É', 'æ', 'Æ', 'ô', 'ö', 'ò', 'û', 'ù', 'ÿ', 'Ö', 'Ü', '¢', '£', '¥', '₧', 'ƒ',
    'á', 'í', 'ó', 'ú', 'ñ', 'Ñ', 'ª', 'º', '¿', '⌐', '¬', '½', '¼', '¡', '«', '»',
    '░', '▒', '▓', '│', '┤', '╡', '╢', '╖', '╕', '╣', '║', '╗', '╝', '╜', '╛', '┐',
    '└', '┴', '┬', '├', '─', '┼', '╞', '╟', '╚', '╔', '╩', '╦', '╠', '═', '╬', '╧',
    '╨', '╤', '╥', '╙', '╘', '╒', '╓', '╫', '╪', '┘', '┌', '█', '▄', '▌', '▐', '▀',
    'α', 'ß', 'Γ', 'π', 'Σ', 'σ', 'µ', 'τ', 'Φ', 'Θ', 'Ω', 'δ', '∞', 'φ', 'ε', '∩',
    '≡', '±', '≥', '≤', '⌠', '⌡', '÷', '≈', '°', '∙', '·', '√', 'ⁿ', '²', '■', '\u{00A0}',
];

/// The glyph that CP437 shows for byte `b`.
pub open spec fn glyph(b: u8) -> char {
    if b < 0x20 {
        LOW@[b as int]
    } else if b < 0x7F {
        b as char
    } else if b == 0x7F {
        '⌂'
    } else {
        HIGH@[b - 0x80]
    }
}

/// A char is encodable when some byte other than 0x00 shows it (0x00 and
/// 0x20 both show a space; the space is written as 0x20).
pub open spec fn encodable(c: char) -> bool {
    exists|b: u8| 1 <= b && #[trigger] glyph(b) == c
}

/// The byte that `char_to_byte` writes for `c`: the byte showing it, or `?`.
pub open spec fn encoded(c: char) -> u8 {
    if encodable(c) {
        choose|b: u8| 1 <= b && #[trigger] glyph(b) == c
    } else {
        0x3F
    }
}

pub fn byte_to_char(b: u8) -> (c: char)
    ensures
        c == glyph(b),
{
    if b < 0x20 {
        LOW[b as usize]
    } else if b < 0x7F {
        b as char
    } else if b == 0x7F {
        '⌂'
    } else {
        HIGH[(b - 0x80) as usize]
    }
}

pub fn char_to_byte(c: char) -> (r: u8)
    ensures
        r == encoded(c),
        encodable(c) ==> 1 <= r && glyph(r) == c,
        !encodable(c) ==> r == 0x3F,
{
    proof {
        lemma_glyph_injective();
    }
    if ' ' <= c && c <= '~' {
        let r = c as u8;
        assert(glyph(r) == c);
        return r;
    }
    if c == '⌂' {
        assert(glyph(0x7F) == c);
        return 0x7F;
    }
    let mut i: usize = 0;
    while i < 128
        invariant
            i <= 128,
            forall|j: int| 0 <= j < i ==> HIGH@[j] != c,
        decreases 128 - i,
    {
        if HIGH[i] == c {
            let r = 0x80 + i as u8;
            assert(glyph(r) == c);
            return r;
        }
        i = i + 1;
    }
    let mut i: usize = 1;
    while i < 32
        invariant
            1 <= i <= 32,
            forall|j: int| 1 <= j < i ==> LOW@[j] != c,
        decreases 32 - i,
    {
        if LOW[i] == c {
            let r = i as u8;
            assert(glyph(r) == c);
            return r;
        }
        i = i + 1;
    }
    assert forall|b: u8| 1 <= b implies glyph(b) != c by {
        if b >= 0x80 {
            assert(HIGH@[b - 0x80] != c);
        }
    }
    0x3F
}

/// The byte that a glyph came from, for every glyph of bytes 0x01-0xFF.
spec fn glyph_code(c: char) -> int {
    if ' ' <= c <= '~' {
        c as int
    } else if c == '⌂' {
        127
    } else if c == 'Ç' {
        128
    } else if c == 'ü' {
        129
    } else if c == 'é' {
        130
    } else if c == 'â' {
        131
    } else if c == 'ä' {
        132
    } else if c == 'à' {
        133
    } else if c == 'å' {
        134
    } else if c == 'ç' {
        135
    } else if c == 'ê' {
        136
    } else if c == 'ë' {
        137
    } else if c == 'è' {
        138
    } else if c == 'ï' {
        139
    } else if c == 'î' {
        140
    } else if c == 'ì' {
        141
    } else if c == 'Ä' {
        142
    } else if c == 'Å' {
        143
    } else if c == 'É' {
        144
    } else if c == 'æ' {
        145
    } else if c == 'Æ' {
        146
    } else if c == 'ô' {
        147
    } else if c == 'ö' {
        148
    } else if c == 'ò' {
        149
    } else if c == 'û' {
        150
    } else if c == 'ù' {
        151
    } else if c == 'ÿ' {
        152
    } else if c == 'Ö' {
        153
    } else if c == 'Ü' {
        154
    } else if c == '¢' {
        155
    } else if c == '£' {
        156
    } else if c == '¥' {
        157
    } else if c == '₧' {
        158
    } else if c == 'ƒ' {
        159
    } else if c == 'á' {
        160
    } else if c == 'í' {
        161
    } else if c == 'ó' {
        162
    } else if c == 'ú' {
        163
    } else if c == 'ñ' {
        164
    } else if c == 'Ñ' {
        165
    } else if c == 'ª' {
        166
    } else if c == 'º' {
        167
    } else if c == '¿' {
        168
    } else if c == '⌐' {
        169
    } else if c == '¬' {
        170
    } else if c == '½' {
        171
    } else if c == '¼' {
        172
    } else if c == '¡' {
        173
    } else if c == '«' {
        174
    } else if c == '»' {
        175
    } else if c == '░' {
        176
    } else if c == '▒' {
        177
    } else if c == '▓' {
        178
    } else if c == '│' {
        179
    } else if c == '┤' {
        180
    } else if c == '╡' {
        181
    } else if c == '╢' {
        182
    } else if c == '╖' {
        183
    } else if c == '╕' {
        184
    } else if c == '╣' {
        185
    } else if c == '║' {
        186
    } else if c == '╗' {
        187
    } else if c == '╝' {
        188
    } else if c == '╜' {
        189
    } else if c == '╛' {
        190
    } else if c == '┐' {
        191
    } else if c == '└' {
        192
    } else if c == '┴' {
        193
    } else if c == '┬' {
        194
    } else if c == '├' {
        195
    } else if c == '─' {
        196
    } else if c == '┼' {
        197
    } else if c == '╞' {
        198
    } else if c == '╟' {
        199
    } else if c == '╚' {
        200
    } else if c == '╔' {
        201
    } else if c == '╩' {
        202
    } else if c == '╦' {
        203
    } else if c == '╠' {
        204
    } else if c == '═' {
        205
    } else if c == '╬' {
        206
    } else if c == '╧' {
        207
    } else if c == '╨' {
        208
    } else if c == '╤' {
        209
    } else if c == '╥' {
        210
    } else if c == '╙' {
        211
    } else if c == '╘' {
        212
    } else if c == '╒' {
        213
    } else if c == '╓' {
        214
    } else if c == '╫' {
        215
    } else if c == '╪' {
        216
    } else if c == '┘' {
        217
    } else if c == '┌' {
        218
    } else if c == '█' {
        219
    } else if c == '▄' {
        220
    } else if c == '▌' {
        221
    } else if c == '▐' {
        222
    } else if c == '▀' {
        223
    } else if c == 'α' {
        224
    } else if c == 'ß' {
        225
    } else if c == 'Γ' {
        226
    } else if c == 'π' {
        227
    } else if c == 'Σ' {
        228
    } else if c == 'σ' {
        229
    } else if c == 'µ' {
        230
    } else if c == 'τ' {
        231
    } else if c == 'Φ' {
        232
    } else if c == 'Θ' {
        233
    } else if c == 'Ω' {
        234
    } else if c == 'δ' {
        235
    } else if c == '∞' {
        236
    } else if c == 'φ' {
        237
    } else if c == 'ε' {
        238
    } else if c == '∩' {
        239
    } else if c == '≡' {
        240
    } else if c == '±' {
        241
    } else if c == '≥' {
        242
    } else if c == '≤' {
        243
    } else if c == '⌠' {
        244
    } else if c == '⌡' {
        245
    } else if c == '÷' {
        246
    } else if c == '≈' {
        247
    } else if c == '°' {
        248
    } else if c == '∙' {
        249
    } else if c == '·' {
        250
    } else if c == '√' {
        251
    } else if c == 'ⁿ' {
        252
    } else if c == '²' {
        253
    } else if c == '■' {
        254
    } else if c == '\u{00A0}' {
        255
    } else if c == '☺' {
        1
    } else if c == '☻' {
        2
    } else if c == '♥' {
        3
    } else if c == '♦' {
        4
    } else if c == '♣' {
        5
    } else if c == '♠' {
        6
    } else if c == '•' {
        7
    } else if c == '◘' {
        8
    } else if c == '○' {
        9
    } else if c == '◙' {
        10
    } else if c == '♂' {
        11
    } else if c == '♀' {
        12
    } else if c == '♪' {
        13
    } else if c == '♫' {
        14
    } else if c == '☼' {
        15
    } else if c == '►' {
        16
    } else if c == '◄' {
        17
    } else if c == '↕' {
        18
    } else if c == '‼' {
        19
    } else if c == '¶' {
        20
    } else if c == '§' {
        21
    } else if c == '▬' {
        22
    } else if c == '↨' {
        23
    } else if c == '↑' {
        24
    } else if c == '↓' {
        25
    } else if c == '→' {
        26
    } else if c == '←' {
        27
    } else if c == '∟' {
        28
    } else if c == '↔' {
        29
    } else if c == '▲' {
        30
    } else if c == '▼' {
        31
    } else {
        -1
    }
}

proof fn lemma_glyph_code(b: u8)
    requires
        1 <= b,
    ensures
        glyph_code(glyph(b)) == b,
{
}

/// Decoding a byte other than 0x00 and encoding the glyph gives the byte back.
pub proof fn lemma_byte_roundtrip(b: u8)
    requires
        1 <= b,
    ensures
        encodable(glyph(b)),
        encoded(glyph(b)) == b,
{
    lemma_glyph_injective();
    assert(glyph(b) == glyph(b));
}

/// Encoding an encodable char and decoding the byte gives the char back.
pub proof fn lemma_char_roundtrip(c: char)
    requires
        encodable(c),
    ensures
        1 <= encoded(c),
        glyph(encoded(c)) == c,
{
}

/// Distinct bytes 0x01-0xFF show distinct glyphs.
pub proof fn lemma_glyph_injective()
    ensures
        forall|a: u8, b: u8| 1 <= a && 1 <= b && #[trigger] glyph(a) == #[trigger] glyph(b) ==> a == b,
{
    assert forall|a: u8, b: u8| 1 <= a && 1 <= b && #[trigger] glyph(a) == #[trigger] glyph(b) implies a == b by {
        lemma_glyph_code(a);
        lemma_glyph_code(b);
    }
}

} // verus!
