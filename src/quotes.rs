//! Quotes shown between matches.
use vstd::prelude::*;

verus! {

/// The quotes, each with its author.
pub open spec fn quote_table() -> Seq<(&'static str, &'static str)> {
    seq![
        ("Victory belongs to the most persevering.", "Napoleon Bonaparte"),
        ("Your victory is right around the corner. Never give up.", "Nicky Minaj"),
        ("War is a series of catastrophes which result in victory.", "Albert Pike"),
        ("Know thy self, know thy enemy. A thousand battles, a thousand victories", "Sun Tzu"),
        ("No victory without suffering", "J. R. R. Tolkien"),
        ("Victory comes from finding opportunities in problems", "Sun Tzu"),
        ("Without training, they lacked knowledge. Without knowledge, they lacked confidence. Without confidence, they lacked victory.", "Julius Ceasar"),
        ("The will to conquer is the first condition of victory", "Ferdinand Foch"),
        ("The more difficult the victory, the greater the happiness in winning", "Pele"),
        ("Preparedness is the key to success and victory", "Douglas MacArthur"),
        ("So a military force has no constant formation, water has no constant shape: the ability to gain victory by changing and adapting according to the opponent is called genius.", "Sun Tzu"),
        ("Even the smallest victory is never to be taken for granted. Each victory must be applauded...", "Audre Lorde"),
        ("There is only one decisive victory: the last.", "Carl von Clausewitz"),
        ("Victory is sweetest when you've known defeat.", "Malcolm Forbes"),
        ("You ask what the aim is? I tell you it is victory - total victory.", "Winston Churchill "),
        ("Forewarned, forearmed; to be prepared is half the victory.", "Miguel de Cervantes"),
        ("Full effort is full victory.", "Mahatma Gandhi"),
        ("If there exists no possibility of failure, then victory is meaningless.", "Robert H. Schuller"),
        ("We lost because we told ourselves we lost.", "Leo Tolstoy"),
        ("The secret of all victory lies in the organization of the non-obvious.", "Marcus Aurelius"),
        ("I would challenge you to a battle of wits, but I see you are unarmed!", "William Shakespeare"),
        ("Sometimes by losing a battle you find a new way to win the war.", "Donald Trump"),
        ("All men can see these tactics whereby I conquer, but what none can see is the strategy out of which victory is evolved.", "Sun Tzu"),
        ("Our greatest glory is not in never falling, but in rising every time we fall.", "Confucius"),
        ("Somebody's gotta win and somebody's gotta lose and I believe in letting the other guy lose.", "Pete Rose"),
    ]
}

/// The quote at position `i`, counted round the table, with its author.
pub fn get_quote(i: usize) -> (r: (String, String))
    ensures
        r.0@ == quote_table()[i as int % quote_table().len() as int].0@,
        r.1@ == quote_table()[i as int % quote_table().len() as int].1@,
{
    let quotes: Vec<(&'static str, &'static str)> = vec![
        ("Victory belongs to the most persevering.", "Napoleon Bonaparte"),
        ("Your victory is right around the corner. Never give up.", "Nicky Minaj"),
        ("War is a series of catastrophes which result in victory.", "Albert Pike"),
        ("Know thy self, know thy enemy. A thousand battles, a thousand victories", "Sun Tzu"),
        ("No victory without suffering", "J. R. R. Tolkien"),
        ("Victory comes from finding opportunities in problems", "Sun Tzu"),
        ("Without training, they lacked knowledge. Without knowledge, they lacked confidence. Without confidence, they lacked victory.", "Julius Ceasar"),
        ("The will to conquer is the first condition of victory", "Ferdinand Foch"),
        ("The more difficult the victory, the greater the happiness in winning", "Pele"),
        ("Preparedness is the key to success and victory", "Douglas MacArthur"),
        ("So a military force has no constant formation, water has no constant shape: the ability to gain victory by changing and adapting according to the opponent is called genius.", "Sun Tzu"),
        ("Even the smallest victory is never to be taken for granted. Each victory must be applauded...", "Audre Lorde"),
        ("There is only one decisive victory: the last.", "Carl von Clausewitz"),
        ("Victory is sweetest when you've known defeat.", "Malcolm Forbes"),
        ("You ask what the aim is? I tell you it is victory - total victory.", "Winston Churchill "),
        ("Forewarned, forearmed; to be prepared is half the victory.", "Miguel de Cervantes"),
        ("Full effort is full victory.", "Mahatma Gandhi"),
        ("If there exists no possibility of failure, then victory is meaningless.", "Robert H. Schuller"),
        ("We lost because we told ourselves we lost.", "Leo Tolstoy"),
        ("The secret of all victory lies in the organization of the non-obvious.", "Marcus Aurelius"),
        ("I would challenge you to a battle of wits, but I see you are unarmed!", "William Shakespeare"),
        ("Sometimes by losing a battle you find a new way to win the war.", "Donald Trump"),
        ("All men can see these tactics whereby I conquer, but what none can see is the strategy out of which victory is evolved.", "Sun Tzu"),
        ("Our greatest glory is not in never falling, but in rising every time we fall.", "Confucius"),
        ("Somebody's gotta win and somebody's gotta lose and I believe in letting the other guy lose.", "Pete Rose"),
    ];
    assert(quotes@ =~= quote_table());
    let q = quotes[i % quotes.len()];
    (q.0.to_owned(), q.1.to_owned())
}

} // verus!
