use vstd::prelude::*;

verus! {

/// The English name of a month number, or "Invalid".
pub open spec fn month_label(month: u32) -> Seq<char> {
    if month == 1 {
        "January"@
    } else if month == 2 {
        "February"@
    } else if month == 3 {
        "March"@
    } else if month == 4 {
        "April"@
    } else if month == 5 {
        "May"@
    } else if month == 6 {
        "June"@
    } else if month == 7 {
        "July"@
    } else if month == 8 {
        "August"@
    } else if month == 9 {
        "September"@
    } else if month == 10 {
        "October"@
    } else if month == 11 {
        "November"@
    } else if month == 12 {
        "December"@
    } else {
        "Invalid"@
    }
}

/// The month a calendar shows.
pub struct CalendarView {
    pub displayed_month: u32,
    pub displayed_year: i32,
}

impl CalendarView {
    pub open spec fn wf(&self) -> bool {
        1 <= self.displayed_month <= 12
    }

    /// Months counted from year zero, the measure that navigation moves by one.
    pub open spec fn index(&self) -> int {
        self.displayed_year as int * 12 + self.displayed_month as int - 1
    }

    pub fn new(displayed_month: u32, displayed_year: i32) -> (r: Self)
        requires
            1 <= displayed_month <= 12,
        ensures
            r.wf(),
            r.displayed_month == displayed_month,
            r.displayed_year == displayed_year,
    {
        CalendarView { displayed_month, displayed_year }
    }

    /// The name of the displayed month.
    pub fn month_name(&self) -> (r: &'static str)
        ensures
            r@ == month_label(self.displayed_month),
    {
        proof {
            reveal_strlit("January");
            reveal_strlit("February");
            reveal_strlit("March");
            reveal_strlit("April");
            reveal_strlit("May");
            reveal_strlit("June");
            reveal_strlit("July");
            reveal_strlit("August");
            reveal_strlit("September");
            reveal_strlit("October");
            reveal_strlit("November");
            reveal_strlit("December");
            reveal_strlit("Invalid");
        }
        match self.displayed_month {
            1 => "January",
            2 => "February",
            3 => "March",
            4 => "April",
            5 => "May",
            6 => "June",
            7 => "July",
            8 => "August",
            9 => "September",
            10 => "October",
            11 => "November",
            12 => "December",
            _ => "Invalid",
        }
    }

    /// Moves to the following month, across a year end when needed.
    pub fn next_month(&mut self)
        requires
            old(self).wf(),
            old(self).displayed_month < 12 || old(self).displayed_year < i32::MAX,
        ensures
            final(self).wf(),
            final(self).index() == old(self).index() + 1,
    {
        if self.displayed_month == 12 {
            self.displayed_month = 1;
            self.displayed_year = self.displayed_year + 1;
        } else {
            self.displayed_month = self.displayed_month + 1;
        }
    }

    /// Moves to the preceding month, across a year start when needed.
    pub fn prev_month(&mut self)
        requires
            old(self).wf(),
            old(self).displayed_month > 1 || old(self).displayed_year > i32::MIN,
        ensures
            final(self).wf(),
            final(self).index() == old(self).index() - 1,
    {
        if self.displayed_month == 1 {
            self.displayed_month = 12;
            self.displayed_year = self.displayed_year - 1;
        } else {
            self.displayed_month = self.displayed_month - 1;
        }
    }
}

/// How many week rows a month grid needs when the month's first day falls
/// `offset` days after Monday and the month has `days` days.
pub fn grid_rows(offset: u32, days: u32) -> (r: u32)
    requires
        offset < 7,
        days <= 31,
    ensures
        r == (offset + days + 6) / 7,
        r * 7 >= offset + days,
{
    (offset + days + 6) / 7
}

/// The day of the month shown in cell `cell` of the grid (cells counted
/// row by row from Monday), or nothing for a cell outside the month.
pub fn cell_day(cell: u32, offset: u32, days: u32) -> (r: Option<u32>)
    requires
        offset < 7,
        days <= 31,
    ensures
        r is None <==> cell < offset || cell >= offset + days,
        r is Some ==> r->0 == cell - offset + 1 && 1 <= r->0 <= days,
{
    if cell < offset || cell >= offset + days {
        None
    } else {
        Some(cell - offset + 1)
    }
}

} // verus!
