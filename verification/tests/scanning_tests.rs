use phone_detector::{PhoneDetectorFactory, PhoneMatch, PhoneType};

fn scan(text: &str) -> Vec<PhoneMatch> {
    PhoneDetectorFactory::create_scanner().extract(text)
}

fn kinds(matches: &[PhoneMatch]) -> Vec<PhoneType> {
    matches.iter().map(|m| m.phone_type).collect()
}

fn values(matches: &[PhoneMatch]) -> Vec<(String, String)> {
    matches.iter().map(|m| (m.value.clone(), m.normalized.clone())).collect()
}

#[test]
fn formatted_in_text() {
    let m = scan("Call me at (123) 456-7890");
    assert_eq!(kinds(&m), vec![PhoneType::FormattedDomestic]);
    assert_eq!(values(&m), vec![("(123) 456-7890".to_string(), "1234567890".to_string())]);
    assert_eq!(m[0].position, 11);
}

#[test]
fn multiple_formatted_numbers() {
    let m = scan("Contact: 123-456-7890 or 987-654-3210");
    assert_eq!(kinds(&m), vec![PhoneType::FormattedDomestic, PhoneType::FormattedDomestic]);
    assert_eq!(
        values(&m),
        vec![
            ("123-456-7890".to_string(), "1234567890".to_string()),
            ("987-654-3210".to_string(), "9876543210".to_string()),
        ]
    );
}

#[test]
fn international_format_in_text() {
    let m = scan("My number is +91 9876543210");
    assert_eq!(kinds(&m), vec![PhoneType::InternationalPlus]);
    assert_eq!(values(&m), vec![("+91 9876543210".to_string(), "919876543210".to_string())]);
}

#[test]
fn mixed_formats() {
    let m = scan("Office: +1 234-567-8900, Mobile: 9876543210");
    assert_eq!(kinds(&m), vec![PhoneType::InternationalPlus, PhoneType::Mobile10Digit]);
    assert_eq!(
        values(&m),
        vec![
            ("+1 234-567-8900".to_string(), "12345678900".to_string()),
            ("9876543210".to_string(), "9876543210".to_string()),
        ]
    );
}

#[test]
fn plain_10_digit_in_text() {
    let m = scan("Plain number: 2345678901");
    assert_eq!(kinds(&m), vec![PhoneType::Plain10Digit]);
}

#[test]
fn no_phones() {
    assert!(scan("No phone numbers here!").is_empty());
}

#[test]
fn space_separated_mobile() {
    let m = scan("Number with spaces: 99887 76655");
    assert_eq!(kinds(&m), vec![PhoneType::Mobile10Digit]);
    assert_eq!(values(&m), vec![("99887 76655".to_string(), "9988776655".to_string())]);
}

#[test]
fn triple_spaced_mobile() {
    let m = scan("Spaced format: 998 877 6655");
    assert_eq!(kinds(&m), vec![PhoneType::Mobile10Digit]);
}

#[test]
fn pair_spaced_mobile() {
    let m = scan("Pair spacing: 99 88 77 66 55");
    assert_eq!(kinds(&m), vec![PhoneType::Mobile10Digit]);
}

#[test]
fn single_digit_spacing() {
    let m = scan("Single spacing: 9 9 8 8 7 7 6 6 5 5");
    assert_eq!(kinds(&m), vec![PhoneType::Mobile10Digit]);
}

#[test]
fn intl_with_single_digit_spacing() {
    let m = scan("International spaced: +123 9 9 8 8 7 7 6 6 5 5");
    assert_eq!(kinds(&m), vec![PhoneType::InternationalPlus]);
}

#[test]
fn intl_with_pair_spacing() {
    let m = scan("International pairs: +12 99 88 77 66 55");
    assert_eq!(kinds(&m), vec![PhoneType::InternationalPlus]);
}

#[test]
fn intl_with_triple_spacing() {
    let m = scan("International triple: +123 99 88 77 66 55");
    assert_eq!(kinds(&m), vec![PhoneType::InternationalPlus]);
}

#[test]
fn intl_with_group_spacing() {
    let m = scan("International group: +91 998 877 6655");
    assert_eq!(kinds(&m), vec![PhoneType::InternationalPlus]);
}

#[test]
fn intl_extended_with_spacing() {
    let m = scan("International extended: +911 998 877 6655");
    assert_eq!(kinds(&m), vec![PhoneType::InternationalPlus]);
}

#[test]
fn story_seven_digit_number_not_detected() {
    let text = r#"The project was a logistical nightmare, but Sarah was determined to see it through. Organizing the international tech summit meant juggling time zones, vendors, and the very particular demands of keynote speakers. Her desk was a chaotic collage of sticky notes, each one bearing a name and a number that was crucial to the event's success. Her first call of the day was to the main venue's event manager. She quickly dialed the local landline, 456-7890, a number she now knew by heart. "Hi, David, it's Sarah again," she began, launching into a series of questions about stage lighting."#;
    assert!(scan(text).is_empty());
}

#[test]
fn story_international_and_spaced_mobile() {
    let text = r#"Next on the list was confirming the travel arrangements for Dr. Alistair Finch, a renowned AI researcher based in London. His assistant had emailed his direct line, and Sarah carefully typed +44 20 7946 0123 into her phone. The international dialing tone was a familiar sound by now. Thankfully, the call was brief and successful. With that checked off, she turned her attention to catering. The local company she was using was fantastic, and their coordinator, Priya, was always responsive. She sent a quick text to her mobile, 98765 43210, to confirm the final headcount for the welcome dinner."#;
    let m = scan(text);
    assert_eq!(kinds(&m), vec![PhoneType::InternationalPlus, PhoneType::Mobile10Digit]);
    assert_eq!(
        values(&m),
        vec![
            ("+44 20 7946 0123".to_string(), "442079460123".to_string()),
            ("98765 43210".to_string(), "9876543210".to_string()),
        ]
    );
}

#[test]
fn story_international_and_toll_free() {
    let text = r#"The summit's biggest draw was a tech mogul flying in from California. Coordinating with his team was a challenge in itself. Sarah found the number for his chief of staff on a crumpled napkin from a previous meeting: +1 (415) 555-0182. She hoped he would pick up. While waiting for a call back, she tackled the marketing side. They had set up a toll-free hotline for registration inquiries, and she made a test call to 1-800-555-0199 to check the automated message. Everything seemed to be working perfectly."#;
    let m = scan(text);
    assert_eq!(kinds(&m), vec![PhoneType::InternationalPlus, PhoneType::FormattedTollFree]);
    assert_eq!(
        values(&m),
        vec![
            ("+1 (415) 555-0182".to_string(), "14155550182".to_string()),
            ("1-800-555-0199".to_string(), "18005550199".to_string()),
        ]
    );
}

#[test]
fn story_international_spaced_mobile_and_formatted() {
    let text = r#"Her final task for the morning was to sort out a last-minute request for a specialized drone camera. An old colleague had recommended a boutique rental firm in Sydney. He had scribbled the number on a business card: +61 2 9876 5432. It was late in Australia, but she decided to leave a voicemail. As she hung up, her phone buzzed with a message from a local volunteer. The text was simple: "All set for tomorrow. My backup number is 99887 76655 if you can't reach me on the main one." Sarah sighed, a mix of exhaustion and relief. With so many moving parts, every confirmed detail, every answered call to a number like 212-555-2368, was a small victory. The summit was just days away, and this complex web of digits was the invisible thread holding it all together."#;
    let m = scan(text);
    assert_eq!(
        kinds(&m),
        vec![PhoneType::InternationalPlus, PhoneType::Mobile10Digit, PhoneType::FormattedDomestic]
    );
}

#[test]
fn multiple_international() {
    let m = scan("Support: (234) 567-8900, Sales: +1-345-678-9012, India: +91-9123456789");
    assert_eq!(
        kinds(&m),
        vec![PhoneType::FormattedDomestic, PhoneType::InternationalPlus, PhoneType::InternationalPlus]
    );
}

#[test]
fn detection_demo() {
    let text = "Contact us at (234) 567-8900 or +91-9876543210. \
                Office: 345-678-9012, Mobile: 9123456789, \
                Alt: 99887 76655, Intl: +1 (234) 567-8900";
    let m = scan(text);
    let summary: Vec<(PhoneType, usize, String, String)> = m
        .iter()
        .map(|p| (p.phone_type, p.position, p.value.clone(), p.normalized.clone()))
        .collect();
    assert_eq!(
        summary,
        vec![
            (PhoneType::FormattedDomestic, 14, "(234) 567-8900".to_string(), "2345678900".to_string()),
            (PhoneType::InternationalPlus, 32, "+91-9876543210".to_string(), "919876543210".to_string()),
            (PhoneType::FormattedDomestic, 56, "345-678-9012".to_string(), "3456789012".to_string()),
            (PhoneType::Mobile10Digit, 78, "9123456789".to_string(), "9123456789".to_string()),
            (PhoneType::Mobile10Digit, 95, "99887 76655".to_string(), "9988776655".to_string()),
            (PhoneType::InternationalPlus, 114, "+1 (234) 567-8900".to_string(), "12345678900".to_string()),
        ]
    );
}

#[test]
fn benchmark_inputs_give_expected_counts() {
    let long = format!("{}{}{}", "x".repeat(1000), "(234) 567-8900", "y".repeat(1000));
    let cases: Vec<(&str, usize)> = vec![
        ("Call me at (123) 456-7890", 1),
        ("Contact: +1 234-567-8900", 1),
        ("Mobile: 9876543210", 1),
        ("Multiple: (234) 567-8900 and +91-9123456789", 2),
        ("Plain: 2345678901", 1),
        ("No phones here at all", 0),
        ("Story paragraph with various phone formats and numbers", 0),
        ("Business: (345) 678-9012 or +1-456-789-0123", 2),
        (long.as_str(), 1),
        ("Service: 234-567-8900, support: +1-345-678-9012", 2),
    ];
    for (text, count) in cases {
        assert_eq!(scan(text).len(), count, "text {:?}", text);
    }
}
